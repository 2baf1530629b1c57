//! Deep merging of TOML values: the override wins on scalars, tables
//! merge recursively, arrays concatenate, and two values of different
//! kinds are an error naming where they met.

use vstd::prelude::*;

use super::value::{
    entries_tree, items_tree, key_less, keys_sorted, kind_name, lemma_array_tree,
    lemma_get_index, lemma_get_put, lemma_key_less_irreflexive, lemma_sorted_tables_equal,
    lemma_put_sorted, lemma_sorted_position, lemma_table_tree,
    same_kind, table_get, table_put, tree_wf, TomlTree, TomlValue,
};
use crate::text::{chars_of, same_text};


verus! {

/// Two values of different kinds met at `path` while merging.
#[derive(Debug)]
pub struct MergeConflict {
    /// The dotted path of the values, from `$` for the root.
    pub path: String,
    /// The kind of the base value.
    pub base: &'static str,
    /// The kind of the overriding value.
    pub other: &'static str,
}

impl MergeConflict {
    pub open spec fn view(&self) -> (Seq<char>, Seq<char>, Seq<char>) {
        (self.path@, self.base@, self.other@)
    }
}

/// The outcome of merging `other` into `base`, the values met at `path`.
pub open spec fn merge_spec(base: TomlTree, other: TomlTree, path: Seq<char>) -> Result<
    TomlTree,
    (Seq<char>, Seq<char>, Seq<char>),
>
    decreases other, 0int,
{
    match (base, other) {
        (TomlTree::Table(b), TomlTree::Table(o)) => match merge_entries(b, o, 0, path) {
            Ok(t) => Ok(TomlTree::Table(t)),
            Err(e) => Err(e),
        },
        (TomlTree::Array(a), TomlTree::Array(o)) => Ok(TomlTree::Array(a + o)),
        _ => if same_kind(base, other) {
            Ok(other)
        } else {
            Err((path, kind_name(base), kind_name(other)))
        },
    }
}

/// The path of the value under `key` in the value at `path`.
pub open spec fn child_path(path: Seq<char>, key: Seq<char>) -> Seq<char> {
    path + "."@ + key
}

/// Merging the entries `o[i..]` of an overriding table, in order, into
/// the table `acc`.
pub open spec fn merge_entries(
    acc: Seq<(Seq<char>, TomlTree)>,
    o: Seq<(Seq<char>, TomlTree)>,
    i: int,
    path: Seq<char>,
) -> Result<Seq<(Seq<char>, TomlTree)>, (Seq<char>, Seq<char>, Seq<char>)>
    decreases o, o.len() - i,
{
    if 0 <= i < o.len() {
        let k = o[i].0;
        let step = match table_get(acc, k) {
            Some(b) => {
                proof {
                    assert(decreases_to!(o => o[i]));
                }
                merge_spec(b, o[i].1, child_path(path, k))
            },
            None => Ok(o[i].1),
        };
        match step {
            Ok(v) => merge_entries(table_put(acc, k, v), o, i + 1, path),
            Err(e) => Err(e),
        }
    } else {
        Ok(acc)
    }
}

/// The name of the kind of `v`: `toml`'s `Value::type_str`.
pub fn kind_str(v: &TomlValue) -> (res: &'static str)
    ensures
        res@ == kind_name(v.tree()),
{
    match v {
        TomlValue::String(_) => "string",
        TomlValue::Integer(_) => "integer",
        TomlValue::Float(_) => "float",
        TomlValue::Boolean(_) => "boolean",
        TomlValue::Datetime(_) => "datetime",
        TomlValue::Array(_) => "array",
        TomlValue::Table(_) => "table",
    }
}

/// Whether `a` and `b` are of the same kind: `toml`'s `Value::same_type`.
pub fn same_kind_value(a: &TomlValue, b: &TomlValue) -> (res: bool)
    ensures
        res == same_kind(a.tree(), b.tree()),
{
    match (a, b) {
        (TomlValue::String(_), TomlValue::String(_)) => true,
        (TomlValue::Integer(_), TomlValue::Integer(_)) => true,
        (TomlValue::Float(_), TomlValue::Float(_)) => true,
        (TomlValue::Boolean(_), TomlValue::Boolean(_)) => true,
        (TomlValue::Datetime(_), TomlValue::Datetime(_)) => true,
        (TomlValue::Array(_), TomlValue::Array(_)) => true,
        (TomlValue::Table(_), TomlValue::Table(_)) => true,
        _ => false,
    }
}

proof fn lemma_key_less_skip(a: Seq<char>, b: Seq<char>, i: int)
    requires
        0 <= i <= a.len(),
        i <= b.len(),
        a.take(i) == b.take(i),
    ensures
        key_less(a, b) == key_less(a.skip(i), b.skip(i)),
    decreases i,
{
    if i > 0 {
        assert(a[0] == a.take(i)[0]);
        assert(b[0] == b.take(i)[0]);
        assert(a.drop_first().take(i - 1) =~= b.drop_first().take(i - 1)) by {
            assert forall|k: int| 0 <= k < i - 1 implies #[trigger] a.drop_first().take(i - 1)[k] == b.drop_first().take(i - 1)[k] by {
                assert(a.take(i)[k + 1] == b.take(i)[k + 1]);
                assert(a.take(i)[k + 1] == a[k + 1]);
                assert(b.take(i)[k + 1] == b[k + 1]);
            }
        }
        lemma_key_less_skip(a.drop_first(), b.drop_first(), i - 1);
        assert(a.drop_first().skip(i - 1) =~= a.skip(i));
        assert(b.drop_first().skip(i - 1) =~= b.skip(i));
    } else {
        assert(a.skip(0) =~= a);
        assert(b.skip(0) =~= b);
    }
}

/// Whether `a` sorts strictly before `b`.
pub fn key_less_str(a: &str, b: &str) -> (res: bool)
    ensures
        res == key_less(a@, b@),
{
    let x = chars_of(a);
    let y = chars_of(b);
    let mut i: usize = 0;
    while i < x.len() && i < y.len() && x[i] == y[i]
        invariant
            x@ == a@,
            y@ == b@,
            0 <= i <= x.len(),
            i <= y.len(),
            x@.take(i as int) == y@.take(i as int),
        decreases x.len() - i,
    {
        assert(x@.take(i + 1) =~= x@.take(i as int).push(x@[i as int]));
        assert(y@.take(i + 1) =~= y@.take(i as int).push(y@[i as int]));
        i = i + 1;
    }
    proof {
        lemma_key_less_skip(x@, y@, i as int);
    }
    if i == x.len() {
        i < y.len()
    } else if i == y.len() {
        false
    } else {
        assert(x@.skip(i as int)[0] == x@[i as int]);
        assert(y@.skip(i as int)[0] == y@[i as int]);
        x[i] < y[i]
    }
}

/// The position of `key` in the sorted table `t`: the number of keys
/// below it.
fn position_of(t: &Vec<(String, TomlValue)>, key: &String) -> (p: usize)
    ensures
        p <= t.len(),
        forall|i: int| 0 <= i < p ==> key_less(#[trigger] t@[i].0@, key@),
        p == t.len() || !key_less(t@[p as int].0@, key@),
{
    let mut p: usize = 0;
    while p < t.len() && key_less_str(t[p].0.as_str(), key.as_str())
        invariant
            p <= t.len(),
            forall|i: int| 0 <= i < p ==> key_less(#[trigger] t@[i].0@, key@),
        decreases t.len() - p,
    {
        p = p + 1;
    }
    p
}

/// The values of a table are each well formed.
pub open spec fn values_wf(s: Seq<(Seq<char>, TomlTree)>) -> bool {
    forall|i: int| 0 <= i < s.len() ==> tree_wf(#[trigger] s[i].1)
}

proof fn lemma_put_values_wf(s: Seq<(Seq<char>, TomlTree)>, k: Seq<char>, v: TomlTree)
    requires
        values_wf(s),
        tree_wf(v),
    ensures
        values_wf(table_put(s, k, v)),
    decreases s.len(),
{
    let r = table_put(s, k, v);
    if s.len() == 0 {
    } else if s[0].0 == k {
        assert forall|i: int| 0 <= i < r.len() implies tree_wf(#[trigger] r[i].1) by {
            if i > 0 {
                assert(r[i] == s[i]);
            }
        }
    } else if key_less(k, s[0].0) {
        assert forall|i: int| 0 <= i < r.len() implies tree_wf(#[trigger] r[i].1) by {
            if i > 0 {
                assert(r[i] == s[i - 1]);
            }
        }
    } else {
        let t = s.drop_first();
        assert(values_wf(t)) by {
            assert forall|i: int| 0 <= i < t.len() implies tree_wf(#[trigger] t[i].1) by {
                assert(t[i] == s[i + 1]);
            }
        }
        lemma_put_values_wf(t, k, v);
        assert forall|i: int| 0 <= i < r.len() implies tree_wf(#[trigger] r[i].1) by {
            if i > 0 {
                assert(r[i] == table_put(t, k, v)[i - 1]);
            }
        }
    }
}

proof fn lemma_get_wf(s: Seq<(Seq<char>, TomlTree)>, k: Seq<char>)
    requires
        values_wf(s),
    ensures
        table_get(s, k) matches Some(v) ==> tree_wf(v),
    decreases s.len(),
{
    if s.len() > 0 && s[0].0 != k {
        let t = s.drop_first();
        assert(values_wf(t)) by {
            assert forall|i: int| 0 <= i < t.len() implies tree_wf(#[trigger] t[i].1) by {
                assert(t[i] == s[i + 1]);
            }
        }
        lemma_get_wf(t, k);
    }
}

/// A merge of well formed values is well formed.
pub proof fn lemma_merge_wf(base: TomlTree, other: TomlTree, path: Seq<char>)
    requires
        tree_wf(base),
        tree_wf(other),
    ensures
        merge_spec(base, other, path) matches Ok(v) ==> tree_wf(v),
    decreases other, 0int,
{
    match (base, other) {
        (TomlTree::Table(b), TomlTree::Table(o)) => {
            lemma_merge_entries_wf(b, o, 0, path);
        },
        (TomlTree::Array(a), TomlTree::Array(o)) => {
            let r = a + o;
            assert forall|i: int| 0 <= i < r.len() implies tree_wf(#[trigger] r[i]) by {
                if i < a.len() {
                    assert(r[i] == a[i]);
                } else {
                    assert(r[i] == o[i - a.len()]);
                }
            }
        },
        _ => {},
    }
}

proof fn lemma_merge_entries_wf(
    acc: Seq<(Seq<char>, TomlTree)>,
    o: Seq<(Seq<char>, TomlTree)>,
    i: int,
    path: Seq<char>,
)
    requires
        keys_sorted(acc),
        values_wf(acc),
        values_wf(o),
    ensures
        merge_entries(acc, o, i, path) matches Ok(t) ==> keys_sorted(t) && values_wf(t)
            && tree_wf(TomlTree::Table(t)),
    decreases o, o.len() - i,
{
    if 0 <= i < o.len() {
        let k = o[i].0;
        assert(tree_wf(o[i].1));
        lemma_get_wf(acc, k);
        let step = match table_get(acc, k) {
            Some(b) => merge_spec(b, o[i].1, child_path(path, k)),
            None => Ok(o[i].1),
        };
        match table_get(acc, k) {
            Some(b) => {
                assert(decreases_to!(o => o[i]));
                lemma_merge_wf(b, o[i].1, child_path(path, k));
            },
            None => {},
        }
        if let Ok(v) = step {
            lemma_put_sorted(acc, k, v);
            lemma_put_values_wf(acc, k, v);
            lemma_merge_entries_wf(table_put(acc, k, v), o, i + 1, path);
        }
    }
}

/// Deep-merges `other` into `base`, the two values met at the dotted
/// `path` (reported on a conflict).
///
/// `other` wins on scalars, tables are merged recursively and arrays
/// are concatenated; values of different kinds are an error.
pub fn merge_toml(base: TomlValue, other: TomlValue, path: &str) -> (res: Result<
    TomlValue,
    MergeConflict,
>)
    requires
        base.well_formed(),
        other.well_formed(),
    ensures
        match res {
            Ok(v) => merge_spec(base.tree(), other.tree(), path@) == Ok::<
                TomlTree,
                (Seq<char>, Seq<char>, Seq<char>),
            >(v.tree()) && v.well_formed(),
            Err(e) => merge_spec(base.tree(), other.tree(), path@) == Err::<
                TomlTree,
                (Seq<char>, Seq<char>, Seq<char>),
            >(e@),
        },
    decreases other,
{
    proof {
        lemma_merge_wf(base.tree(), other.tree(), path@);
    }
    match base {
        TomlValue::Table(b) => {
            match other {
                TomlValue::Table(o) => {
                    proof {
                        lemma_table_tree(b);
                        lemma_table_tree(o);
                    }
                    let t = merge_tables(b, o, path)?;
                    proof {
                        lemma_table_tree(t);
                    }
                    Ok(TomlValue::Table(t))
                },
                other => {
                    let base = TomlValue::Table(b);
                    Err(
                        MergeConflict {
                            path: String::from_str(path),
                            base: kind_str(&base),
                            other: kind_str(&other),
                        },
                    )
                },
            }
        },
        TomlValue::Array(mut a) => {
            match other {
                TomlValue::Array(mut o) => {
                    proof {
                        lemma_array_tree(a);
                        lemma_array_tree(o);
                    }
                    let ghost a0 = a@;
                    let ghost o0 = o@;
                    a.append(&mut o);
                    proof {
                        lemma_array_tree(a);
                        assert(items_tree(a@) =~= items_tree(a0) + items_tree(o0));
                    }
                    Ok(TomlValue::Array(a))
                },
                other => {
                    let base = TomlValue::Array(a);
                    Err(
                        MergeConflict {
                            path: String::from_str(path),
                            base: kind_str(&base),
                            other: kind_str(&other),
                        },
                    )
                },
            }
        },
        base => {
            if same_kind_value(&base, &other) {
                Ok(other)
            } else {
                Err(
                    MergeConflict {
                        path: String::from_str(path),
                        base: kind_str(&base),
                        other: kind_str(&other),
                    },
                )
            }
        },
    }
}

/// Merges the entries of the overriding table `o`, in order, into `b`.
fn merge_tables(b: Vec<(String, TomlValue)>, o: Vec<(String, TomlValue)>, path: &str) -> (res:
    Result<Vec<(String, TomlValue)>, MergeConflict>)
    requires
        tree_wf(TomlTree::Table(entries_tree(b@))),
        tree_wf(TomlTree::Table(entries_tree(o@))),
    ensures
        match res {
            Ok(t) => merge_entries(entries_tree(b@), entries_tree(o@), 0, path@) == Ok::<
                Seq<(Seq<char>, TomlTree)>,
                (Seq<char>, Seq<char>, Seq<char>),
            >(entries_tree(t@)),
            Err(e) => merge_entries(entries_tree(b@), entries_tree(o@), 0, path@) == Err::<
                Seq<(Seq<char>, TomlTree)>,
                (Seq<char>, Seq<char>, Seq<char>),
            >(e@),
        },
    decreases o,
{
    let ghost o0 = o;
    let ghost otree = entries_tree(o@);
    let ghost btree = entries_tree(b@);
    let mut acc = b;
    let mut rest = o;
    let n = rest.len();
    let mut i: usize = 0;
    #[verifier::loop_isolation(false)]
    while i < n
        invariant
            0 <= i <= n == o0@.len() == otree.len(),
            otree == entries_tree(o0@),
            rest@ == o0@.skip(i as int),
            keys_sorted(entries_tree(acc@)),
            values_wf(entries_tree(acc@)),
            values_wf(otree),
            merge_entries(btree, otree, 0, path@) == merge_entries(
                entries_tree(acc@),
                otree,
                i as int,
                path@,
            ),
        decreases n - i,
    {
        let ghost accv = entries_tree(acc@);
        let (key, ov) = rest.remove(0);
        proof {
            assert(o0@[i as int] == (key, ov));
            assert(otree[i as int] == (key@, ov.tree()));
            assert(tree_wf(ov.tree()));
            assert(rest@ =~= o0@.skip(i + 1));
        }
        let p = position_of(&acc, &key);
        proof {
            lemma_sorted_position(accv, key@, p as int);
            if p < acc.len() {
                assert(accv[p as int] == (acc@[p as int].0@, acc@[p as int].1.tree()));
            }
        }
        let found = p < acc.len() && same_text(acc[p].0.as_str(), key.as_str());
        if found {
            let (old_key, bv) = acc.remove(p);
            let mut sub = String::from_str(path);
            sub.append(".");
            sub.append(key.as_str());
            proof {
                assert(accv[p as int].1 == bv.tree());
                assert(table_get(accv, key@) == Some(bv.tree()));
                lemma_get_wf(accv, key@);
                assert(decreases_to!(o0 => o0@[i as int].1));
                assert(decreases_to!(o0 => ov));
                assert(sub@ == child_path(path@, key@));
            }
            let merged = merge_toml(bv, ov, sub.as_str());
            match merged {
                Ok(mv) => {
                    acc.insert(p, (key, mv));
                    proof {
                        assert(merge_entries(accv, otree, i as int, path@) == merge_entries(
                            table_put(accv, key@, mv.tree()),
                            otree,
                            i + 1,
                            path@,
                        ));
                        assert(entries_tree(acc@) =~= accv.update(p as int, (key@, mv.tree())));
                        lemma_put_sorted(accv, key@, mv.tree());
                        lemma_put_values_wf(accv, key@, mv.tree());
                    }
                },
                Err(e) => {
                    assert(merge_entries(accv, otree, i as int, path@) == Err::<
                        Seq<(Seq<char>, TomlTree)>,
                        (Seq<char>, Seq<char>, Seq<char>),
                    >(e@));
                    assert(merge_entries(btree, otree, 0, path@) == Err::<
                        Seq<(Seq<char>, TomlTree)>,
                        (Seq<char>, Seq<char>, Seq<char>),
                    >(e@));
                    return Err(e);
                },
            }
        } else {
            proof {
                assert(table_get(accv, key@) is None);
                lemma_put_sorted(accv, key@, ov.tree());
                lemma_put_values_wf(accv, key@, ov.tree());
            }
            acc.insert(p, (key, ov));
            proof {
                assert(entries_tree(acc@) =~= accv.insert(p as int, (otree[i as int].0, otree[i as int].1)));
            }
        }
        i = i + 1;
    }
    Ok(acc)
}

/// The value a merged table holds under a key, from the base's and the
/// override's values under it (`None` for a key in neither, or for two
/// values that did not merge).
pub open spec fn merged_entry(bv: Option<TomlTree>, ov: Option<TomlTree>, path: Seq<char>) -> Option<
    TomlTree,
> {
    match (bv, ov) {
        (Some(x), Some(y)) => match merge_spec(x, y, path) {
            Ok(m) => Some(m),
            Err(_) => None,
        },
        (Some(x), None) => Some(x),
        (None, y) => y,
    }
}

/// Whether the `j`-th entry of the override `o` merges with what the
/// base `b` holds under its key (trivially so when `b` holds nothing).
pub open spec fn entry_merges(
    b: Seq<(Seq<char>, TomlTree)>,
    o: Seq<(Seq<char>, TomlTree)>,
    j: int,
    path: Seq<char>,
) -> bool {
    match table_get(b, o[j].0) {
        Some(x) => merge_spec(x, o[j].1, child_path(path, o[j].0)) is Ok,
        None => true,
    }
}

proof fn lemma_get_absent(s: Seq<(Seq<char>, TomlTree)>, k: Seq<char>)
    requires
        forall|q: int| 0 <= q < s.len() ==> #[trigger] s[q].0 != k,
    ensures
        table_get(s, k) is None,
    decreases s.len(),
{
    if s.len() > 0 {
        let t = s.drop_first();
        assert forall|q: int| 0 <= q < t.len() implies #[trigger] t[q].0 != k by {
            assert(t[q] == s[q + 1]);
        }
        lemma_get_absent(t, k);
    }
}

proof fn lemma_get_push(s: Seq<(Seq<char>, TomlTree)>, e: (Seq<char>, TomlTree), k: Seq<char>)
    ensures
        table_get(s.push(e), k) == match table_get(s, k) {
            Some(x) => Some(x),
            None => if e.0 == k {
                Some(e.1)
            } else {
                None
            },
        },
    decreases s.len(),
{
    if s.len() == 0 {
        assert(s.push(e).drop_first() =~= s);
    } else {
        assert(s.push(e).drop_first() =~= s.drop_first().push(e));
        lemma_get_push(s.drop_first(), e, k);
    }
}

proof fn lemma_merge_entries_keys(
    b: Seq<(Seq<char>, TomlTree)>,
    acc: Seq<(Seq<char>, TomlTree)>,
    o: Seq<(Seq<char>, TomlTree)>,
    i: int,
    path: Seq<char>,
)
    requires
        keys_sorted(o),
        0 <= i <= o.len(),
        forall|k: Seq<char>|
            #[trigger] table_get(acc, k) == merged_entry(
                table_get(b, k),
                table_get(o.take(i), k),
                child_path(path, k),
            ),
        forall|j: int| 0 <= j < i ==> entry_merges(b, o, j, path),
    ensures
        (merge_entries(acc, o, i, path) is Ok) == (forall|j: int|
            i <= j < o.len() ==> entry_merges(b, o, j, path)),
        merge_entries(acc, o, i, path) matches Ok(r) ==> forall|k: Seq<char>|
            #[trigger] table_get(r, k) == merged_entry(
                table_get(b, k),
                table_get(o, k),
                child_path(path, k),
            ),
        merge_entries(acc, o, i, path) matches Err(e) ==> exists|j: int|
            i <= j < o.len() && table_get(b, o[j].0) is Some && merge_spec(
                table_get(b, o[j].0).unwrap(),
                o[j].1,
                child_path(path, o[j].0),
            ) == Err::<TomlTree, (Seq<char>, Seq<char>, Seq<char>)>(e) && forall|q: int|
                i <= q < j ==> entry_merges(b, o, q, path),
    decreases o.len() - i,
{
    if i < o.len() {
        let k = o[i].0;
        let pre = o.take(i);
        assert forall|q: int| 0 <= q < pre.len() implies #[trigger] pre[q].0 != k by {
            assert(pre[q] == o[q]);
            assert(key_less(o[q].0, o[i].0));
            lemma_key_less_irreflexive(k);
        }
        lemma_get_absent(pre, k);
        assert(table_get(acc, k) == table_get(b, k));
        let step = match table_get(acc, k) {
            Some(x) => merge_spec(x, o[i].1, child_path(path, k)),
            None => Ok(o[i].1),
        };
        assert(o.take(i + 1) =~= pre.push(o[i]));
        match step {
            Ok(v) => {
                let acc2 = table_put(acc, k, v);
                assert forall|k2: Seq<char>| #[trigger]
                    table_get(acc2, k2) == merged_entry(
                        table_get(b, k2),
                        table_get(o.take(i + 1), k2),
                        child_path(path, k2),
                    ) by {
                    lemma_get_put(acc, k, v, k2);
                    lemma_get_push(pre, o[i], k2);
                    assert(table_get(acc, k2) == merged_entry(
                        table_get(b, k2),
                        table_get(pre, k2),
                        child_path(path, k2),
                    ));
                }
                assert(entry_merges(b, o, i, path));
                assert forall|j: int| 0 <= j < i + 1 implies entry_merges(b, o, j, path) by {}
                lemma_merge_entries_keys(b, acc2, o, i + 1, path);
                assert(merge_entries(acc, o, i, path) == merge_entries(acc2, o, i + 1, path));
                if merge_entries(acc, o, i, path) is Err {
                    let e = merge_entries(acc, o, i, path)->Err_0;
                    let j = choose|j: int|
                        i + 1 <= j < o.len() && table_get(b, o[j].0) is Some && merge_spec(
                            table_get(b, o[j].0).unwrap(),
                            o[j].1,
                            child_path(path, o[j].0),
                        ) == Err::<TomlTree, (Seq<char>, Seq<char>, Seq<char>)>(e) && forall|
                            q: int,
                        | i + 1 <= q < j ==> entry_merges(b, o, q, path);
                    assert forall|q: int| i <= q < j implies entry_merges(b, o, q, path) by {}
                }
            },
            Err(e) => {
                assert(!entry_merges(b, o, i, path));
                assert(merge_entries(acc, o, i, path) == Err::<
                    Seq<(Seq<char>, TomlTree)>,
                    (Seq<char>, Seq<char>, Seq<char>),
                >(e));
            },
        }
    } else {
        assert(o.take(i) =~= o);
    }
}

/// Merging two tables keeps every key of both: a key of one side only
/// keeps its value, and a key of both holds the merge of its two values.
/// The merge succeeds exactly when every key of both merges, and fails
/// with the conflict of the first such key, in the override's order,
/// that does not.
pub proof fn lemma_merged_table_keys(
    b: Seq<(Seq<char>, TomlTree)>,
    o: Seq<(Seq<char>, TomlTree)>,
    path: Seq<char>,
)
    requires
        keys_sorted(o),
    ensures
        (merge_spec(TomlTree::Table(b), TomlTree::Table(o), path) is Ok) == (forall|j: int|
            0 <= j < o.len() ==> entry_merges(b, o, j, path)),
        merge_spec(TomlTree::Table(b), TomlTree::Table(o), path) matches Ok(t) ==> (
        t matches TomlTree::Table(r) && forall|k: Seq<char>|
            #[trigger] table_get(r, k) == merged_entry(
                table_get(b, k),
                table_get(o, k),
                child_path(path, k),
            )),
        merge_spec(TomlTree::Table(b), TomlTree::Table(o), path) matches Err(e) ==> exists|j: int|
            0 <= j < o.len() && table_get(b, o[j].0) is Some && merge_spec(
                table_get(b, o[j].0).unwrap(),
                o[j].1,
                child_path(path, o[j].0),
            ) == Err::<TomlTree, (Seq<char>, Seq<char>, Seq<char>)>(e) && forall|q: int|
                0 <= q < j ==> entry_merges(b, o, q, path),
{
    assert forall|k: Seq<char>| #[trigger]
        table_get(b, k) == merged_entry(
            table_get(b, k),
            table_get(o.take(0), k),
            child_path(path, k),
        ) by {
        assert(o.take(0).len() == 0);
    }
    lemma_merge_entries_keys(b, b, o, 0, path);
}

/// The override wins on two values of the same kind that are neither
/// tables nor arrays; arrays are concatenated; values of different kinds
/// do not merge, the conflict naming where they met and their kinds.
pub proof fn lemma_merge_leaves(base: TomlTree, other: TomlTree, path: Seq<char>)
    ensures
        !(base is Table) && !(base is Array) && same_kind(base, other) ==> merge_spec(
            base,
            other,
            path,
        ) == Ok::<TomlTree, (Seq<char>, Seq<char>, Seq<char>)>(other),
        base is Array && other is Array ==> merge_spec(base, other, path) == Ok::<
            TomlTree,
            (Seq<char>, Seq<char>, Seq<char>),
        >(TomlTree::Array(base->Array_0 + other->Array_0)),
        !same_kind(base, other) ==> merge_spec(base, other, path) == Err::<
            TomlTree,
            (Seq<char>, Seq<char>, Seq<char>),
        >((path, kind_name(base), kind_name(other))),
{
    if let (TomlTree::Array(a), TomlTree::Array(o)) = (base, other) {
        assert(merge_spec(base, other, path) == Ok::<TomlTree, (Seq<char>, Seq<char>, Seq<char>)>(
            TomlTree::Array(a + o),
        ));
    }
}

/// An empty override changes nothing: merging an empty table into a
/// table gives that table back.
pub proof fn lemma_empty_override(b: Seq<(Seq<char>, TomlTree)>, path: Seq<char>)
    ensures
        merge_spec(TomlTree::Table(b), TomlTree::Table(Seq::empty()), path) == Ok::<
            TomlTree,
            (Seq<char>, Seq<char>, Seq<char>),
        >(TomlTree::Table(b)),
{
    assert(merge_entries(b, Seq::empty(), 0, path) == Ok::<
        Seq<(Seq<char>, TomlTree)>,
        (Seq<char>, Seq<char>, Seq<char>),
    >(b));
}

/// Merging subconfigurations in order does not depend on how the merges
/// are grouped: where both groupings succeed, merging `b` into `a` and
/// then `c` into the result gives what merging into `a` the merge of `c`
/// into `b` gives.
pub proof fn lemma_merge_associative(a: TomlTree, b: TomlTree, c: TomlTree, path: Seq<char>)
    requires
        tree_wf(a),
        tree_wf(b),
        tree_wf(c),
        merge_spec(a, b, path) is Ok,
        merge_spec(merge_spec(a, b, path)->Ok_0, c, path) is Ok,
        merge_spec(b, c, path) is Ok,
        merge_spec(a, merge_spec(b, c, path)->Ok_0, path) is Ok,
    ensures
        merge_spec(merge_spec(a, b, path)->Ok_0, c, path) == merge_spec(
            a,
            merge_spec(b, c, path)->Ok_0,
            path,
        ),
    decreases c,
{
    let ab = merge_spec(a, b, path)->Ok_0;
    let bc = merge_spec(b, c, path)->Ok_0;
    lemma_merge_wf(a, b, path);
    lemma_merge_wf(b, c, path);
    match (a, b, c) {
        (TomlTree::Table(sa), TomlTree::Table(sb), TomlTree::Table(sc)) => {
            let sab = ab->Table_0;
            let sbc = bc->Table_0;
            lemma_merged_table_keys(sa, sb, path);
            lemma_merged_table_keys(sb, sc, path);
            lemma_merged_table_keys(sab, sc, path);
            lemma_merged_table_keys(sa, sbc, path);
            lemma_merge_wf(ab, c, path);
            lemma_merge_wf(a, bc, path);
            let r1 = merge_spec(ab, c, path)->Ok_0->Table_0;
            let r2 = merge_spec(a, bc, path)->Ok_0->Table_0;
            assert forall|k: Seq<char>| #[trigger] table_get(r1, k) == table_get(r2, k) by {
                let cp = child_path(path, k);
                let x = table_get(sa, k);
                let y = table_get(sb, k);
                let z = table_get(sc, k);
                assert(table_get(sab, k) == merged_entry(x, y, cp));
                assert(table_get(sbc, k) == merged_entry(y, z, cp));
                if x is Some && y is Some && z is Some {
                    lemma_get_index(sb, k);
                    let jb = choose|i: int| 0 <= i < sb.len() && #[trigger] sb[i] == (k, y->0);
                    assert(entry_merges(sa, sb, jb, path));
                    lemma_get_index(sc, k);
                    let jc = choose|i: int| 0 <= i < sc.len() && #[trigger] sc[i] == (k, z->0);
                    assert(entry_merges(sb, sc, jc, path));
                    assert(entry_merges(sab, sc, jc, path));
                    lemma_get_index(sbc, k);
                    let jbc = choose|i: int|
                        0 <= i < sbc.len() && #[trigger] sbc[i] == (k, table_get(sbc, k)->0);
                    assert(entry_merges(sa, sbc, jbc, path));
                    lemma_get_wf(sa, k);
                    lemma_get_wf(sb, k);
                    lemma_get_wf(sc, k);
                    assert(decreases_to!(c => sc[jc].1)) by {
                        assert(decreases_to!(c => sc));
                        assert(decreases_to!(sc => sc[jc]));
                    }
                    lemma_merge_associative(x->0, y->0, z->0, cp);
                }
            }
            lemma_sorted_tables_equal(r1, r2);
        },
        (TomlTree::Array(x), TomlTree::Array(y), TomlTree::Array(z)) => {
            assert(x + y + z =~= x + (y + z));
        },
        _ => {},
    }
}

/// The values `base` and `other` hold at the key path `keys`, each key
/// followed through a table on both sides: `None` where a step does not
/// lead through tables holding the key on both sides. Arrays are not
/// entered.
pub open spec fn values_at(base: TomlTree, other: TomlTree, keys: Seq<Seq<char>>) -> Option<
    (TomlTree, TomlTree),
>
    decreases keys.len(),
{
    if keys.len() == 0 {
        Some((base, other))
    } else {
        match (base, other) {
            (TomlTree::Table(b), TomlTree::Table(o)) => match (
                table_get(b, keys[0]),
                table_get(o, keys[0]),
            ) {
                (Some(x), Some(y)) => values_at(x, y, keys.drop_first()),
                _ => None,
            },
            _ => None,
        }
    }
}

/// The dotted path of the key path `keys` below `path`.
pub open spec fn dotted_path(path: Seq<char>, keys: Seq<Seq<char>>) -> Seq<char>
    decreases keys.len(),
{
    if keys.len() == 0 {
        path
    } else {
        dotted_path(child_path(path, keys[0]), keys.drop_first())
    }
}

/// Whether `base` and `other` hold values of different kinds at the key
/// path `keys`.
pub open spec fn conflicts_at(base: TomlTree, other: TomlTree, keys: Seq<Seq<char>>) -> bool {
    values_at(base, other, keys) matches Some(p) && !same_kind(p.0, p.1)
}

/// A merge fails exactly where the two sides conflict: there is a key
/// path, followed through tables on both sides, at which they hold
/// values of different kinds. The error then names the dotted path of
/// one such key path and the kinds of the two values there.
pub proof fn lemma_merge_fails_at_conflict(base: TomlTree, other: TomlTree, path: Seq<char>)
    requires
        tree_wf(base),
        tree_wf(other),
    ensures
        (merge_spec(base, other, path) is Err) == (exists|keys: Seq<Seq<char>>|
            conflicts_at(base, other, keys)),
        merge_spec(base, other, path) is Err ==> exists|keys: Seq<Seq<char>>|
            #[trigger] conflicts_at(base, other, keys) && merge_spec(base, other, path)->Err_0 == (
                dotted_path(path, keys),
                kind_name(values_at(base, other, keys).unwrap().0),
                kind_name(values_at(base, other, keys).unwrap().1),
            ),
    decreases other,
{
    match (base, other) {
        (TomlTree::Table(b), TomlTree::Table(o)) => {
            lemma_merged_table_keys(b, o, path);
            if merge_spec(base, other, path) is Err {
                let e = merge_spec(base, other, path)->Err_0;
                let j = choose|j: int|
                    0 <= j < o.len() && table_get(b, o[j].0) is Some && merge_spec(
                        table_get(b, o[j].0).unwrap(),
                        o[j].1,
                        child_path(path, o[j].0),
                    ) == Err::<TomlTree, (Seq<char>, Seq<char>, Seq<char>)>(e) && forall|q: int|
                        0 <= q < j ==> entry_merges(b, o, q, path);
                let k = o[j].0;
                let x = table_get(b, k).unwrap();
                assert(table_get(o, k) == Some(o[j].1)) by {
                    assert forall|i: int| 0 <= i < j implies key_less(#[trigger] o[i].0, k) by {}
                    lemma_key_less_irreflexive(k);
                    lemma_sorted_position(o, k, j);
                }
                lemma_get_wf(b, k);
                assert(decreases_to!(other => o[j].1)) by {
                    assert(decreases_to!(other => o));
                    assert(decreases_to!(o => o[j]));
                }
                lemma_merge_fails_at_conflict(x, o[j].1, child_path(path, k));
                let rest = choose|keys: Seq<Seq<char>>|
                    #[trigger] conflicts_at(x, o[j].1, keys) && merge_spec(
                        x,
                        o[j].1,
                        child_path(path, k),
                    )->Err_0 == (
                        dotted_path(child_path(path, k), keys),
                        kind_name(values_at(x, o[j].1, keys).unwrap().0),
                        kind_name(values_at(x, o[j].1, keys).unwrap().1),
                    );
                let keys = seq![k] + rest;
                assert(keys.drop_first() =~= rest);
                assert(values_at(base, other, keys) == values_at(x, o[j].1, rest));
                assert(dotted_path(path, keys) == dotted_path(child_path(path, k), rest));
                assert(conflicts_at(base, other, keys));
            }
            if exists|keys: Seq<Seq<char>>| conflicts_at(base, other, keys) {
                let keys = choose|keys: Seq<Seq<char>>| conflicts_at(base, other, keys);
                assert(keys.len() > 0);
                let k = keys[0];
                let x = table_get(b, k)->0;
                let y = table_get(o, k)->0;
                lemma_get_index(o, k);
                let j = choose|i: int| 0 <= i < o.len() && #[trigger] o[i] == (k, y);
                lemma_get_wf(b, k);
                assert(decreases_to!(other => o[j].1)) by {
                    assert(decreases_to!(other => o));
                    assert(decreases_to!(o => o[j]));
                }
                lemma_merge_fails_at_conflict(x, y, child_path(path, k));
                assert(conflicts_at(x, y, keys.drop_first()));
                assert(!entry_merges(b, o, j, path));
            }
        },
        _ => {
            if exists|keys: Seq<Seq<char>>| conflicts_at(base, other, keys) {
                let keys = choose|keys: Seq<Seq<char>>| conflicts_at(base, other, keys);
                assert(keys.len() == 0);
            }
            if merge_spec(base, other, path) is Err {
                let keys = Seq::<Seq<char>>::empty();
                assert(conflicts_at(base, other, keys));
            }
        },
    }
}

} // verus!
