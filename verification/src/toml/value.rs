//! The TOML value model: [`TomlValue`], its mathematical form
//! [`TomlTree`], the order of table keys and the table operations.

use vstd::prelude::*;

verus! {

#[verifier::external_type_specification]
#[verifier::external_body]
pub struct ExTomlValue(::toml::Value);

/// A TOML value as the configuration logic sees it.
///
/// A table holds its entries sorted by key, each key once, which is
/// the order `toml`'s table iterates in. A float and a datetime are
/// kept as the `toml` value that holds them: the logic only ever asks
/// what kind of value they are.
#[derive(Debug, PartialEq)]
pub enum TomlValue {
    String(String),
    Integer(i64),
    Float(::toml::Value),
    Boolean(bool),
    Datetime(::toml::Value),
    Array(Vec<TomlValue>),
    Table(Vec<(String, TomlValue)>),
}

/// The mathematical form of a [`TomlValue`].
pub enum TomlTree {
    String(Seq<char>),
    Integer(i64),
    Float(::toml::Value),
    Boolean(bool),
    Datetime(::toml::Value),
    Array(Seq<TomlTree>),
    Table(Seq<(Seq<char>, TomlTree)>),
}

impl TomlValue {
    /// The mathematical form of this value.
    pub open spec fn tree(&self) -> TomlTree
        decreases self,
    {
        match self {
            TomlValue::String(s) => TomlTree::String(s@),
            TomlValue::Integer(i) => TomlTree::Integer(*i),
            TomlValue::Float(f) => TomlTree::Float(*f),
            TomlValue::Boolean(b) => TomlTree::Boolean(*b),
            TomlValue::Datetime(d) => TomlTree::Datetime(*d),
            TomlValue::Array(a) => TomlTree::Array(
                Seq::new(
                    a.len() as nat,
                    |i: int|
                        if 0 <= i < a.len() {
                            proof {
                                assert(decreases_to!(*self => a@[i]));
                            }
                            a@[i].tree()
                        } else {
                            TomlTree::Boolean(false)
                        },
                ),
            ),
            TomlValue::Table(t) => TomlTree::Table(
                Seq::new(
                    t.len() as nat,
                    |i: int|
                        if 0 <= i < t.len() {
                            proof {
                                assert(decreases_to!(*self => t@[i].1));
                            }
                            (t@[i].0@, t@[i].1.tree())
                        } else {
                            (Seq::empty(), TomlTree::Boolean(false))
                        },
                ),
            ),
        }
    }

    /// Whether every table in this value has its keys sorted, each once.
    pub open spec fn well_formed(&self) -> bool {
        tree_wf(self.tree())
    }
}

/// The mathematical form of a table's entries.
pub open spec fn entries_tree(t: Seq<(String, TomlValue)>) -> Seq<(Seq<char>, TomlTree)> {
    Seq::new(t.len(), |i: int| (t[i].0@, t[i].1.tree()))
}

/// The mathematical form of an array's items.
pub open spec fn items_tree(a: Seq<TomlValue>) -> Seq<TomlTree> {
    Seq::new(a.len(), |i: int| a[i].tree())
}

pub proof fn lemma_table_tree(t: Vec<(String, TomlValue)>)
    ensures
        TomlValue::Table(t).tree() == TomlTree::Table(entries_tree(t@)),
{
    assert(TomlValue::Table(t).tree()->Table_0 =~= entries_tree(t@));
}

pub proof fn lemma_array_tree(a: Vec<TomlValue>)
    ensures
        TomlValue::Array(a).tree() == TomlTree::Array(items_tree(a@)),
{
    assert(TomlValue::Array(a).tree()->Array_0 =~= items_tree(a@));
}

/// Strict lexicographic order on keys: the order of `String`'s `Ord`,
/// code point order and UTF-8 byte order being the same.
pub open spec fn key_less(a: Seq<char>, b: Seq<char>) -> bool
    decreases a.len(),
{
    if a.len() == 0 {
        b.len() > 0
    } else if b.len() == 0 {
        false
    } else if a[0] == b[0] {
        key_less(a.drop_first(), b.drop_first())
    } else {
        a[0] < b[0]
    }
}

pub proof fn lemma_key_less_irreflexive(a: Seq<char>)
    ensures
        !key_less(a, a),
    decreases a.len(),
{
    if a.len() > 0 {
        lemma_key_less_irreflexive(a.drop_first());
    }
}

pub proof fn lemma_key_less_transitive(a: Seq<char>, b: Seq<char>, c: Seq<char>)
    requires
        key_less(a, b),
        key_less(b, c),
    ensures
        key_less(a, c),
    decreases a.len(),
{
    if a.len() > 0 && b.len() > 0 && c.len() > 0 {
        if a[0] == b[0] && b[0] == c[0] {
            lemma_key_less_transitive(a.drop_first(), b.drop_first(), c.drop_first());
        }
    }
}

pub proof fn lemma_key_less_total(a: Seq<char>, b: Seq<char>)
    ensures
        key_less(a, b) || key_less(b, a) || a == b,
    decreases a.len(),
{
    if a.len() > 0 && b.len() > 0 {
        if a[0] == b[0] {
            lemma_key_less_total(a.drop_first(), b.drop_first());
            if a.drop_first() == b.drop_first() {
                assert(a =~= seq![a[0]] + a.drop_first());
                assert(b =~= seq![b[0]] + b.drop_first());
            }
        }
    } else if a.len() == 0 && b.len() == 0 {
        assert(a =~= b);
    }
}

pub proof fn lemma_key_less_asymmetric(a: Seq<char>, b: Seq<char>)
    requires
        key_less(a, b),
    ensures
        !key_less(b, a),
{
    if key_less(b, a) {
        lemma_key_less_transitive(a, b, a);
        lemma_key_less_irreflexive(a);
    }
}

/// Keys strictly increasing: sorted, and each once.
pub open spec fn keys_sorted(s: Seq<(Seq<char>, TomlTree)>) -> bool {
    forall|i: int, j: int| 0 <= i < j < s.len() ==> key_less(#[trigger] s[i].0, #[trigger] s[j].0)
}

/// Every table in `t` has its keys sorted.
pub open spec fn tree_wf(t: TomlTree) -> bool
    decreases t,
{
    match t {
        TomlTree::Array(a) => forall|i: int| 0 <= i < a.len() ==> tree_wf(#[trigger] a[i]),
        TomlTree::Table(s) => keys_sorted(s) && forall|i: int|
            0 <= i < s.len() ==> tree_wf(#[trigger] s[i].1),
        _ => true,
    }
}

/// The value stored under `k` in the table `s`.
pub open spec fn table_get(s: Seq<(Seq<char>, TomlTree)>, k: Seq<char>) -> Option<TomlTree>
    decreases s.len(),
{
    if s.len() == 0 {
        None
    } else if s[0].0 == k {
        Some(s[0].1)
    } else {
        table_get(s.drop_first(), k)
    }
}

/// The table `s` with `k` set to `v`, in key order: what removing `k`
/// and inserting it again does to a sorted table.
pub open spec fn table_put(s: Seq<(Seq<char>, TomlTree)>, k: Seq<char>, v: TomlTree) -> Seq<
    (Seq<char>, TomlTree),
>
    decreases s.len(),
{
    if s.len() == 0 {
        seq![(k, v)]
    } else if s[0].0 == k {
        seq![(k, v)] + s.drop_first()
    } else if key_less(k, s[0].0) {
        seq![(k, v)] + s
    } else {
        seq![s[0]] + table_put(s.drop_first(), k, v)
    }
}

/// What `toml`'s `Value::type_str` names the kind of a value.
pub open spec fn kind_name(t: TomlTree) -> Seq<char> {
    match t {
        TomlTree::String(_) => "string"@,
        TomlTree::Integer(_) => "integer"@,
        TomlTree::Float(_) => "float"@,
        TomlTree::Boolean(_) => "boolean"@,
        TomlTree::Datetime(_) => "datetime"@,
        TomlTree::Array(_) => "array"@,
        TomlTree::Table(_) => "table"@,
    }
}

/// Whether two values are of the same kind: `toml`'s `Value::same_type`.
pub open spec fn same_kind(a: TomlTree, b: TomlTree) -> bool {
    match (a, b) {
        (TomlTree::String(_), TomlTree::String(_)) => true,
        (TomlTree::Integer(_), TomlTree::Integer(_)) => true,
        (TomlTree::Float(_), TomlTree::Float(_)) => true,
        (TomlTree::Boolean(_), TomlTree::Boolean(_)) => true,
        (TomlTree::Datetime(_), TomlTree::Datetime(_)) => true,
        (TomlTree::Array(_), TomlTree::Array(_)) => true,
        (TomlTree::Table(_), TomlTree::Table(_)) => true,
        _ => false,
    }
}

/// The position of `k` in the sorted table `s`: the number of keys
/// below it.
pub open spec fn key_position(s: Seq<(Seq<char>, TomlTree)>, k: Seq<char>) -> int
    decreases s.len(),
{
    if s.len() == 0 {
        0
    } else if key_less(s[0].0, k) {
        1 + key_position(s.drop_first(), k)
    } else {
        0
    }
}

pub proof fn lemma_get_put(s: Seq<(Seq<char>, TomlTree)>, k: Seq<char>, v: TomlTree, k2: Seq<char>)
    ensures
        k2 == k ==> table_get(table_put(s, k, v), k2) == Some(v),
        k2 != k ==> table_get(table_put(s, k, v), k2) == table_get(s, k2),
    decreases s.len(),
{
    let r = table_put(s, k, v);
    if s.len() == 0 {
        assert(r.drop_first() =~= Seq::<(Seq<char>, TomlTree)>::empty());
        assert(r[0] == (k, v));
        if k2 != k {
            assert(table_get(r, k2) == table_get(r.drop_first(), k2));
        }
    } else if s[0].0 == k {
        assert(r[0] == (k, v));
        assert(r.drop_first() =~= s.drop_first());
        if k2 != k {
            assert(table_get(r, k2) == table_get(r.drop_first(), k2));
            assert(table_get(s, k2) == table_get(s.drop_first(), k2));
        }
    } else if key_less(k, s[0].0) {
        assert(r[0] == (k, v));
        assert(r.drop_first() =~= s);
        if k2 != k {
            assert(table_get(r, k2) == table_get(r.drop_first(), k2));
        }
    } else {
        assert(r[0] == s[0]);
        lemma_get_put(s.drop_first(), k, v, k2);
        assert(r.drop_first() =~= table_put(s.drop_first(), k, v));
        if s[0].0 == k2 {
            assert(table_get(r, k2) == Some(s[0].1));
            assert(table_get(s, k2) == Some(s[0].1));
        } else {
            assert(table_get(r, k2) == table_get(r.drop_first(), k2));
            assert(table_get(s, k2) == table_get(s.drop_first(), k2));
        }
    }
}

/// In a sorted table, the entries before position `p` have smaller keys
/// and the entry at `p`, if any, has a key not below `k`: then getting
/// and putting `k` happen at `p`.
pub proof fn lemma_sorted_position(s: Seq<(Seq<char>, TomlTree)>, k: Seq<char>, p: int)
    requires
        keys_sorted(s),
        0 <= p <= s.len(),
        forall|i: int| 0 <= i < p ==> key_less(#[trigger] s[i].0, k),
        p == s.len() || !key_less(s[p].0, k),
    ensures
        p < s.len() && s[p].0 == k ==> table_get(s, k) == Some(s[p].1),
        p < s.len() && s[p].0 == k ==> table_put(s, k, s[p].1) == s,
        !(p < s.len() && s[p].0 == k) ==> table_get(s, k) is None,
        forall|v: TomlTree|
            #![trigger table_put(s, k, v)]
            p < s.len() && s[p].0 == k ==> table_put(s, k, v) == s.update(p, (k, v)),
        forall|v: TomlTree|
            #![trigger table_put(s, k, v)]
            !(p < s.len() && s[p].0 == k) ==> table_put(s, k, v) == s.insert(p, (k, v)),
    decreases p,
{
    if s.len() == 0 {
        assert forall|v: TomlTree| #![trigger table_put(s, k, v)] true implies table_put(s, k, v)
            == s.insert(p, (k, v)) by {
            assert(table_put(s, k, v) =~= s.insert(p, (k, v)));
        }
    } else if p == 0 {
        lemma_key_less_total(s[0].0, k);
        if s[0].0 == k {
            assert forall|v: TomlTree| #![trigger table_put(s, k, v)] true implies table_put(s, k, v)
                == s.update(p, (k, v)) by {
                assert(table_put(s, k, v) =~= s.update(p, (k, v)));
            }
            assert(table_put(s, k, s[0].1) =~= s);
        } else {
            assert(key_less(k, s[0].0));
            assert forall|v: TomlTree| #![trigger table_put(s, k, v)] true implies table_put(s, k, v)
                == s.insert(p, (k, v)) by {
                assert(table_put(s, k, v) =~= s.insert(p, (k, v)));
            }
            // no later entry holds `k`
            lemma_sorted_absent(s, k);
        }
    } else {
        let t = s.drop_first();
        assert(key_less(s[0].0, k));
        lemma_key_less_irreflexive(k);
        assert(s[0].0 != k);
        assert(!key_less(k, s[0].0)) by {
            lemma_key_less_asymmetric(s[0].0, k);
        }
        assert(keys_sorted(t)) by {
            assert forall|i: int, j: int| 0 <= i < j < t.len() implies key_less(
                #[trigger] t[i].0,
                #[trigger] t[j].0,
            ) by {
                assert(t[i] == s[i + 1]);
                assert(t[j] == s[j + 1]);
            }
        }
        assert forall|i: int| 0 <= i < p - 1 implies key_less(#[trigger] t[i].0, k) by {
            assert(t[i] == s[i + 1]);
        }
        if p < s.len() {
            assert(t[p - 1] == s[p]);
        }
        lemma_sorted_position(t, k, p - 1);
        if p < s.len() && s[p].0 == k {
            assert(table_put(s, k, s[p].1) =~= s);
        }
        assert forall|v: TomlTree| #![trigger table_put(s, k, v)] p < s.len() && s[p].0 == k
            implies table_put(s, k, v) == s.update(p, (k, v)) by {
            assert(table_put(t, k, v) == t.update(p - 1, (k, v)));
            assert(table_put(s, k, v) =~= s.update(p, (k, v)));
        }
        assert forall|v: TomlTree| #![trigger table_put(s, k, v)] !(p < s.len() && s[p].0 == k)
            implies table_put(s, k, v) == s.insert(p, (k, v)) by {
            assert(table_put(t, k, v) == t.insert(p - 1, (k, v)));
            assert(table_put(s, k, v) =~= s.insert(p, (k, v)));
        }
    }
}

/// A key below the first key of a sorted table is in none of it.
proof fn lemma_sorted_absent(s: Seq<(Seq<char>, TomlTree)>, k: Seq<char>)
    requires
        keys_sorted(s),
        s.len() > 0,
        key_less(k, s[0].0),
    ensures
        table_get(s, k) is None,
    decreases s.len(),
{
    lemma_key_less_irreflexive(k);
    assert(s[0].0 != k);
    let t = s.drop_first();
    if t.len() > 0 {
        assert(key_less(s[0].0, s[1].0));
        assert(t[0] == s[1]);
        lemma_key_less_transitive(k, s[0].0, s[1].0);
        assert(keys_sorted(t)) by {
            assert forall|i: int, j: int| 0 <= i < j < t.len() implies key_less(
                #[trigger] t[i].0,
                #[trigger] t[j].0,
            ) by {
                assert(t[i] == s[i + 1]);
                assert(t[j] == s[j + 1]);
            }
        }
        lemma_sorted_absent(t, k);
    }
}

/// Putting a key into a sorted table keeps it sorted.
pub proof fn lemma_put_sorted(s: Seq<(Seq<char>, TomlTree)>, k: Seq<char>, v: TomlTree)
    requires
        keys_sorted(s),
    ensures
        keys_sorted(table_put(s, k, v)),
    decreases s.len(),
{
    let r = table_put(s, k, v);
    if s.len() == 0 {
    } else if s[0].0 == k {
        assert forall|i: int, j: int| 0 <= i < j < r.len() implies key_less(
            #[trigger] r[i].0,
            #[trigger] r[j].0,
        ) by {
            assert(r[j] == s[j]);
            if i > 0 {
                assert(r[i] == s[i]);
            }
        }
    } else if key_less(k, s[0].0) {
        assert forall|i: int, j: int| 0 <= i < j < r.len() implies key_less(
            #[trigger] r[i].0,
            #[trigger] r[j].0,
        ) by {
            assert(r[j] == s[j - 1]);
            if i > 0 {
                assert(r[i] == s[i - 1]);
            } else if j > 1 {
                lemma_key_less_transitive(k, s[0].0, s[j - 1].0);
            }
        }
    } else {
        let t = s.drop_first();
        assert(keys_sorted(t)) by {
            assert forall|i: int, j: int| 0 <= i < j < t.len() implies key_less(
                #[trigger] t[i].0,
                #[trigger] t[j].0,
            ) by {
                assert(t[i] == s[i + 1]);
                assert(t[j] == s[j + 1]);
            }
        }
        lemma_put_sorted(t, k, v);
        lemma_key_less_total(k, s[0].0);
        let tr = table_put(t, k, v);
        lemma_put_keys(t, k, v);
        assert forall|i: int, j: int| 0 <= i < j < r.len() implies key_less(
            #[trigger] r[i].0,
            #[trigger] r[j].0,
        ) by {
            assert(r[j] == tr[j - 1]);
            if i > 0 {
                assert(r[i] == tr[i - 1]);
            } else {
                assert(r[0] == s[0]);
                let kj = tr[j - 1].0;
                if kj != k {
                    let q = choose|q: int| 0 <= q < t.len() && t[q].0 == kj;
                    assert(t[q] == s[q + 1]);
                }
            }
        }
    }
}

/// Every key of a put table is the put key or a key of the table.
pub proof fn lemma_put_keys(s: Seq<(Seq<char>, TomlTree)>, k: Seq<char>, v: TomlTree)
    ensures
        forall|i: int|
            0 <= i < table_put(s, k, v).len() ==> #[trigger] table_put(s, k, v)[i].0 == k || exists|
                q: int,
            |
                0 <= q < s.len() && s[q].0 == table_put(s, k, v)[i].0,
    decreases s.len(),
{
    let r = table_put(s, k, v);
    if s.len() == 0 {
    } else if s[0].0 == k {
        assert forall|i: int| 0 <= i < r.len() implies #[trigger] r[i].0 == k || exists|q: int|
            0 <= q < s.len() && s[q].0 == r[i].0 by {
            if i > 0 {
                assert(r[i] == s[i]);
            }
        }
    } else if key_less(k, s[0].0) {
        assert forall|i: int| 0 <= i < r.len() implies #[trigger] r[i].0 == k || exists|q: int|
            0 <= q < s.len() && s[q].0 == r[i].0 by {
            if i > 0 {
                assert(r[i] == s[i - 1]);
            }
        }
    } else {
        let t = s.drop_first();
        lemma_put_keys(t, k, v);
        let tr = table_put(t, k, v);
        assert forall|i: int| 0 <= i < r.len() implies #[trigger] r[i].0 == k || exists|q: int|
            0 <= q < s.len() && s[q].0 == r[i].0 by {
            if i == 0 {
                assert(s[0].0 == r[0].0);
            } else {
                assert(r[i] == tr[i - 1]);
                if tr[i - 1].0 != k {
                    let q = choose|q: int| 0 <= q < t.len() && t[q].0 == tr[i - 1].0;
                    assert(s[q + 1] == t[q]);
                }
            }
        }
    }
}

/// The entries of a sorted table after its first one form a sorted
/// table.
proof fn lemma_sorted_tail(s: Seq<(Seq<char>, TomlTree)>)
    requires
        keys_sorted(s),
        s.len() > 0,
    ensures
        keys_sorted(s.drop_first()),
{
    let t = s.drop_first();
    assert forall|i: int, j: int| 0 <= i < j < t.len() implies key_less(
        #[trigger] t[i].0,
        #[trigger] t[j].0,
    ) by {
        assert(t[i] == s[i + 1]);
        assert(t[j] == s[j + 1]);
    }
}

/// A value a table holds under `k` is the value of one of its entries,
/// whose key is `k`.
pub proof fn lemma_get_index(s: Seq<(Seq<char>, TomlTree)>, k: Seq<char>)
    ensures
        table_get(s, k) matches Some(v) ==> exists|i: int|
            0 <= i < s.len() && #[trigger] s[i] == (k, v),
    decreases s.len(),
{
    if s.len() > 0 && s[0].0 != k {
        let t = s.drop_first();
        lemma_get_index(t, k);
        if table_get(t, k) is Some {
            let v = table_get(t, k).unwrap();
            let i = choose|i: int| 0 <= i < t.len() && #[trigger] t[i] == (k, v);
            assert(s[i + 1] == (k, v));
        }
    } else if s.len() > 0 {
        assert(s[0] == (k, s[0].1));
    }
}

/// Two sorted tables that hold the same value under every key are the
/// same table.
pub proof fn lemma_sorted_tables_equal(s: Seq<(Seq<char>, TomlTree)>, t: Seq<(Seq<char>, TomlTree)>)
    requires
        keys_sorted(s),
        keys_sorted(t),
        forall|k: Seq<char>| #[trigger] table_get(s, k) == table_get(t, k),
    ensures
        s == t,
    decreases s.len(),
{
    if s.len() == 0 || t.len() == 0 {
        if t.len() > 0 {
            assert(table_get(t, t[0].0) == Some(t[0].1));
            assert(table_get(s, t[0].0) is None);
        }
        if s.len() > 0 {
            assert(table_get(s, s[0].0) == Some(s[0].1));
            assert(table_get(t, s[0].0) is None);
        }
        assert(s =~= t);
    } else {
        let k = s[0].0;
        assert(table_get(s, k) == Some(s[0].1));
        assert(table_get(t, t[0].0) == Some(t[0].1));
        assert(table_get(s, t[0].0) == table_get(t, t[0].0));
        lemma_key_less_total(k, t[0].0);
        if key_less(k, t[0].0) {
            lemma_sorted_absent(t, k);
        }
        if key_less(t[0].0, k) {
            lemma_sorted_absent(s, t[0].0);
        }
        assert(k == t[0].0);
        assert(s[0] == t[0]);
        let s2 = s.drop_first();
        let t2 = t.drop_first();
        lemma_sorted_tail(s);
        lemma_sorted_tail(t);
        assert forall|k2: Seq<char>| #[trigger] table_get(s2, k2) == table_get(t2, k2) by {
            if k2 == k {
                if s2.len() > 0 {
                    assert(key_less(s[0].0, s[1].0));
                    assert(s2[0] == s[1]);
                    lemma_sorted_absent(s2, k);
                }
                if t2.len() > 0 {
                    assert(key_less(t[0].0, t[1].0));
                    assert(t2[0] == t[1]);
                    lemma_sorted_absent(t2, k);
                }
            } else {
                assert(table_get(s, k2) == table_get(s2, k2));
                assert(table_get(t, k2) == table_get(t2, k2));
            }
        }
        lemma_sorted_tables_equal(s2, t2);
        assert(s =~= seq![s[0]] + s2);
        assert(t =~= seq![t[0]] + t2);
    }
}

} // verus!
