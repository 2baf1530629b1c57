//! Character-level text helpers shared by the configuration modules:
//! trimming, line cutting and comparison, each stated over `Seq<char>`.

use vstd::prelude::*;

verus! {

/// Unicode `White_Space`, the set `char::is_whitespace` tests.
pub open spec fn is_white(c: char) -> bool {
    ||| ('\u{9}' <= c && c <= '\u{d}')
    ||| c == ' '
    ||| c == '\u{85}'
    ||| c == '\u{a0}'
    ||| c == '\u{1680}'
    ||| ('\u{2000}' <= c && c <= '\u{200a}')
    ||| c == '\u{2028}'
    ||| c == '\u{2029}'
    ||| c == '\u{202f}'
    ||| c == '\u{205f}'
    ||| c == '\u{3000}'
}

/// A carriage return or a line feed.
pub open spec fn is_line_break(c: char) -> bool {
    c == '\r' || c == '\n'
}

/// `s` without the characters satisfying `p` at its start.
pub open spec fn trim_start_by(s: Seq<char>, p: spec_fn(char) -> bool) -> Seq<char>
    decreases s.len(),
{
    if s.len() > 0 && p(s[0]) {
        trim_start_by(s.drop_first(), p)
    } else {
        s
    }
}

/// `s` without the characters satisfying `p` at its end.
pub open spec fn trim_end_by(s: Seq<char>, p: spec_fn(char) -> bool) -> Seq<char>
    decreases s.len(),
{
    if s.len() > 0 && p(s.last()) {
        trim_end_by(s.drop_last(), p)
    } else {
        s
    }
}

/// `s` without the characters satisfying `p` at either end.
pub open spec fn trim_by(s: Seq<char>, p: spec_fn(char) -> bool) -> Seq<char> {
    trim_end_by(trim_start_by(s, p), p)
}

/// `s` without leading and trailing white space, as `str::trim` leaves it.
pub open spec fn trimmed(s: Seq<char>) -> Seq<char> {
    trim_by(s, |c: char| is_white(c))
}

/// Whether `s` holds nothing but white space.
pub open spec fn is_blank(s: Seq<char>) -> bool {
    forall|i: int| 0 <= i < s.len() ==> is_white(#[trigger] s[i])
}

/// The characters of `s` before its first line feed (all of `s` when
/// it holds none).
pub open spec fn before_newline(s: Seq<char>) -> Seq<char>
    decreases s.len(),
{
    if s.len() == 0 {
        s
    } else if s[0] == '\n' {
        Seq::empty()
    } else {
        seq![s[0]] + before_newline(s.drop_first())
    }
}

proof fn lemma_trim_start_skip(s: Seq<char>, p: spec_fn(char) -> bool, i: int)
    requires
        0 <= i <= s.len(),
        forall|k: int| 0 <= k < i ==> p(#[trigger] s[k]),
        i == s.len() || !p(s[i]),
    ensures
        trim_start_by(s, p) == s.skip(i),
    decreases i,
{
    if i > 0 {
        let t = s.drop_first();
        assert forall|k: int| 0 <= k < i - 1 implies p(#[trigger] t[k]) by {
            assert(t[k] == s[k + 1]);
        }
        if i - 1 < t.len() {
            assert(t[i - 1] == s[i]);
        }
        lemma_trim_start_skip(t, p, i - 1);
        assert(t.skip(i - 1) =~= s.skip(i));
    } else {
        assert(s.skip(0) =~= s);
    }
}

proof fn lemma_trim_end_take(s: Seq<char>, p: spec_fn(char) -> bool, j: int)
    requires
        0 <= j <= s.len(),
        forall|k: int| j <= k < s.len() ==> p(#[trigger] s[k]),
        j == 0 || !p(s[j - 1]),
    ensures
        trim_end_by(s, p) == s.take(j),
    decreases s.len() - j,
{
    if j < s.len() {
        let t = s.drop_last();
        assert forall|k: int| j <= k < t.len() implies p(#[trigger] t[k]) by {
            assert(t[k] == s[k]);
        }
        if j > 0 {
            assert(t[j - 1] == s[j - 1]);
        }
        lemma_trim_end_take(t, p, j);
        assert(t.take(j) =~= s.take(j));
    } else {
        assert(s.take(j) =~= s);
    }
}

proof fn lemma_before_newline_take(s: Seq<char>, i: int)
    requires
        0 <= i <= s.len(),
        forall|k: int| 0 <= k < i ==> #[trigger] s[k] != '\n',
        i == s.len() || s[i] == '\n',
    ensures
        before_newline(s) == s.take(i),
    decreases i,
{
    if i > 0 {
        let t = s.drop_first();
        assert forall|k: int| 0 <= k < i - 1 implies #[trigger] t[k] != '\n' by {
            assert(t[k] == s[k + 1]);
        }
        if i - 1 < t.len() {
            assert(t[i - 1] == s[i]);
        }
        lemma_before_newline_take(t, i - 1);
        assert(seq![s[0]] + t.take(i - 1) =~= s.take(i));
    } else {
        assert(s.take(0) =~= Seq::<char>::empty());
    }
}

/// Whether `s` is empty or only white space, as `str::trim` then
/// `is_empty` decides it.
pub proof fn lemma_trimmed_empty_iff_blank(s: Seq<char>)
    ensures
        (trimmed(s).len() == 0) == is_blank(s),
    decreases s.len(),
{
    let p = |c: char| is_white(c);
    if s.len() > 0 && p(s[0]) {
        let t = s.drop_first();
        lemma_trimmed_empty_iff_blank(t);
        assert(trim_start_by(s, p) == trim_start_by(t, p));
        if is_blank(t) {
            assert forall|i: int| 0 <= i < s.len() implies is_white(#[trigger] s[i]) by {
                if i > 0 {
                    assert(s[i] == t[i - 1]);
                }
            }
        }
        if is_blank(s) {
            assert forall|i: int| 0 <= i < t.len() implies is_white(#[trigger] t[i]) by {
                assert(t[i] == s[i + 1]);
            }
        }
    } else if s.len() > 0 {
        assert(trim_start_by(s, p) == s);
        lemma_trim_end_keeps_first(s, p);
        assert(!is_white(s[0]));
    } else {
        assert(trim_start_by(s, p) == s);
    }
}

proof fn lemma_trim_end_keeps_first(s: Seq<char>, p: spec_fn(char) -> bool)
    requires
        s.len() > 0,
        !p(s[0]),
    ensures
        trim_end_by(s, p).len() > 0,
        trim_end_by(s, p)[0] == s[0],
    decreases s.len(),
{
    if p(s.last()) {
        let t = s.drop_last();
        assert(t.len() > 0) by {
            if t.len() == 0 {
                assert(s.last() == s[0]);
            }
        }
        assert(t[0] == s[0]);
        lemma_trim_end_keeps_first(t, p);
    }
}

/// The trimmed text of a trimmed text is itself.
pub proof fn lemma_trimmed_idempotent(s: Seq<char>)
    ensures
        trimmed(trimmed(s)) == trimmed(s),
{
    let p = |c: char| is_white(c);
    let a = trim_start_by(s, p);
    let b = trim_end_by(a, p);
    lemma_trim_start_fixed(s, p);
    lemma_trim_end_fixed(a, p);
    if b.len() > 0 {
        lemma_trim_end_is_prefix(a, p);
        assert(b[0] == a[0]);
        assert(!p(b[0]));
    }
    assert(trim_start_by(b, p) == b);
    lemma_trim_end_fixed(b, p);
}

proof fn lemma_trim_start_fixed(s: Seq<char>, p: spec_fn(char) -> bool)
    ensures
        trim_start_by(s, p).len() == 0 || !p(trim_start_by(s, p)[0]),
    decreases s.len(),
{
    if s.len() > 0 && p(s[0]) {
        lemma_trim_start_fixed(s.drop_first(), p);
    }
}

proof fn lemma_trim_end_is_prefix(s: Seq<char>, p: spec_fn(char) -> bool)
    ensures
        trim_end_by(s, p).len() <= s.len(),
        trim_end_by(s, p) == s.take(trim_end_by(s, p).len() as int),
    decreases s.len(),
{
    if s.len() > 0 && p(s.last()) {
        let t = s.drop_last();
        lemma_trim_end_is_prefix(t, p);
        let r = trim_end_by(t, p);
        assert(t.take(r.len() as int) =~= s.take(r.len() as int));
    } else {
        assert(s.take(s.len() as int) =~= s);
    }
}

proof fn lemma_trim_end_fixed(s: Seq<char>, p: spec_fn(char) -> bool)
    ensures
        trim_end_by(trim_end_by(s, p), p) == trim_end_by(s, p),
        trim_end_by(s, p).len() == 0 || !p(trim_end_by(s, p).last()),
    decreases s.len(),
{
    if s.len() > 0 && p(s.last()) {
        lemma_trim_end_fixed(s.drop_last(), p);
    }
}

/// The characters of `s`, in order.
pub fn chars_of(s: &str) -> (res: Vec<char>)
    ensures
        res@ == s@,
{
    let mut res: Vec<char> = Vec::new();
    for c in it: s.chars()
        invariant
            res@ == it.seq().take(it.index() as int),
            it.seq() == s@,
    {
        res.push(c);
    }
    res
}

/// Appends `c` to `s`: `String::push`.
#[verifier::external_body]
pub(crate) fn push_char(s: &mut String, c: char)
    ensures
        final(s)@ == old(s)@.push(c),
{
    s.push(c);
}

/// The string holding the characters `v[from..to]`, in order.
pub fn string_of_range(v: &Vec<char>, from: usize, to: usize) -> (res: String)
    requires
        from <= to <= v.len(),
    ensures
        res@ == v@.subrange(from as int, to as int),
{
    let mut res = String::new();
    let mut i = from;
    while i < to
        invariant
            from <= i <= to <= v.len(),
            res@ == v@.subrange(from as int, i as int),
        decreases to - i,
    {
        push_char(&mut res, v[i]);
        assert(v@.subrange(from as int, i + 1) =~= v@.subrange(from as int, i as int).push(v[i as int]));
        i = i + 1;
    }
    res
}

/// Whether `c` is white space: `char::is_whitespace`.
pub fn is_white_char(c: char) -> (res: bool)
    ensures
        res == is_white(c),
{
    ('\u{9}' <= c && c <= '\u{d}') || c == ' ' || c == '\u{85}' || c == '\u{a0}' || c
        == '\u{1680}' || ('\u{2000}' <= c && c <= '\u{200a}') || c == '\u{2028}' || c
        == '\u{2029}' || c == '\u{202f}' || c == '\u{205f}' || c == '\u{3000}'
}

/// `s` without leading and trailing white space: `str::trim`.
pub fn trim(s: &str) -> (res: String)
    ensures
        res@ == trimmed(s@),
{
    let v = chars_of(s);
    let n = v.len();
    let mut i: usize = 0;
    while i < n && is_white_char(v[i])
        invariant
            0 <= i <= n == v@.len(),
            forall|k: int| 0 <= k < i ==> is_white(#[trigger] v@[k]),
        decreases n - i,
    {
        i = i + 1;
    }
    let mut j: usize = n;
    while j > i && is_white_char(v[j - 1])
        invariant
            i <= j <= n == v@.len(),
            forall|k: int| j <= k < n ==> is_white(#[trigger] v@[k]),
        decreases j,
    {
        j = j - 1;
    }
    proof {
        let p = |c: char| is_white(c);
        lemma_trim_start_skip(v@, p, i as int);
        let t = v@.skip(i as int);
        assert forall|k: int| j - i <= k < t.len() implies p(#[trigger] t[k]) by {
            assert(t[k] == v@[k + i]);
        }
        if j > i {
            assert(t[j - i - 1] == v@[j - 1]);
        }
        lemma_trim_end_take(t, p, j - i);
        assert(t.take(j - i) =~= v@.subrange(i as int, j as int));
    }
    string_of_range(&v, i, j)
}

/// Whether `s` is empty or only white space.
pub fn is_blank_str(s: &str) -> (res: bool)
    ensures
        res == is_blank(s@),
{
    let t = trim(s);
    proof {
        lemma_trimmed_empty_iff_blank(s@);
    }
    t.as_str().unicode_len() == 0
}

/// The first line of `s` with its carriage returns and line feeds
/// trimmed off both ends: `s.lines().next().unwrap_or(s)` then
/// `trim_matches(['\r', '\n'])`.
pub fn first_line(s: &str) -> (res: String)
    ensures
        res@ == trim_by(before_newline(s@), |c: char| is_line_break(c)),
{
    let v = chars_of(s);
    let n = v.len();
    let mut e: usize = 0;
    while e < n && v[e] != '\n'
        invariant
            0 <= e <= n == v@.len(),
            forall|k: int| 0 <= k < e ==> #[trigger] v@[k] != '\n',
        decreases n - e,
    {
        e = e + 1;
    }
    let mut i: usize = 0;
    while i < e && (v[i] == '\r' || v[i] == '\n')
        invariant
            0 <= i <= e <= n == v@.len(),
            forall|k: int| 0 <= k < i ==> is_line_break(#[trigger] v@[k]),
        decreases e - i,
    {
        i = i + 1;
    }
    let mut j: usize = e;
    while j > i && (v[j - 1] == '\r' || v[j - 1] == '\n')
        invariant
            i <= j <= e <= n == v@.len(),
            forall|k: int| j <= k < e ==> is_line_break(#[trigger] v@[k]),
        decreases j,
    {
        j = j - 1;
    }
    proof {
        let p = |c: char| is_line_break(c);
        lemma_before_newline_take(v@, e as int);
        let l = v@.take(e as int);
        assert forall|k: int| 0 <= k < i implies p(#[trigger] l[k]) by {
            assert(l[k] == v@[k]);
        }
        if i < e {
            assert(l[i as int] == v@[i as int]);
        }
        lemma_trim_start_skip(l, p, i as int);
        let t = l.skip(i as int);
        assert forall|k: int| j - i <= k < t.len() implies p(#[trigger] t[k]) by {
            assert(t[k] == v@[k + i]);
        }
        if j > i {
            assert(t[j - i - 1] == v@[j - 1]);
        }
        lemma_trim_end_take(t, p, j - i);
        assert(t.take(j - i) =~= v@.subrange(i as int, j as int));
    }
    string_of_range(&v, i, j)
}

/// Whether `a` and `b` hold the same characters.
pub fn same_text(a: &str, b: &str) -> (res: bool)
    ensures
        res == (a@ == b@),
{
    let x = chars_of(a);
    let y = chars_of(b);
    if x.len() != y.len() {
        return false;
    }
    let mut i: usize = 0;
    while i < x.len()
        invariant
            x@ == a@,
            y@ == b@,
            x.len() == y.len(),
            0 <= i <= x.len(),
            forall|k: int| 0 <= k < i ==> x@[k] == y@[k],
        decreases x.len() - i,
    {
        if x[i] != y[i] {
            return false;
        }
        i = i + 1;
    }
    assert(x@ =~= y@);
    true
}

} // verus!
