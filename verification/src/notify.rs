//! A desktop notification as a configuration writes it.
//!
//! One shape is accepted, a table carrying the two fields every
//! notification daemon renders:
//!
//! ```toml
//! notify = { summary = "Comodoro", body = "Work started!" }
//! ```
//!
//! The summary is required and cannot be blank, since a notification
//! without one has nothing to show. The body is optional and defaults
//! to empty. Any other field is refused, so a typo is caught rather
//! than silently dropped. Writing mirrors the shape, and omits an empty
//! body.

use vstd::prelude::*;

use crate::text::{is_blank, is_blank_str, same_text};

verus! {

/// A notification: its summary and its body.
#[derive(Clone, Debug, PartialEq, Eq)]
pub struct Notification {
    pub summary: String,
    pub body: String,
}

/// The errors of reading a notification.
#[derive(Clone, Debug, PartialEq, Eq)]
pub enum NotifyError {
    /// A field other than `summary` and `body`.
    UnknownField(String),
    /// A field given twice.
    DuplicateField(&'static str),
    /// No `summary` field.
    MissingSummary,
    /// A summary that is empty or only white space.
    EmptySummary,
}

/// What reading a notification's fields fails on.
pub enum NotifyFailure {
    UnknownField(Seq<char>),
    DuplicateField(Seq<char>),
    MissingSummary,
    EmptySummary,
}

impl NotifyError {
    pub open spec fn failure(&self) -> NotifyFailure {
        match self {
            NotifyError::UnknownField(f) => NotifyFailure::UnknownField(f@),
            NotifyError::DuplicateField(f) => NotifyFailure::DuplicateField(f@),
            NotifyError::MissingSummary => NotifyFailure::MissingSummary,
            NotifyError::EmptySummary => NotifyFailure::EmptySummary,
        }
    }

    /// The message of this error.
    pub open spec fn message_spec(&self) -> Seq<char> {
        match self {
            NotifyError::UnknownField(f) => "unknown field `"@ + f@
                + "`, expected `summary` or `body`"@,
            NotifyError::DuplicateField(f) => "duplicate field `"@ + f@ + "`"@,
            NotifyError::MissingSummary => "missing field `summary`"@,
            NotifyError::EmptySummary => "notification summary is empty"@,
        }
    }

    /// The message of this error.
    pub fn message(&self) -> (res: String)
        ensures
            res@ == self.message_spec(),
    {
        match self {
            NotifyError::UnknownField(f) => {
                let mut m = String::from_str("unknown field `");
                m.append(f.as_str());
                m.append("`, expected `summary` or `body`");
                m
            },
            NotifyError::DuplicateField(f) => {
                let mut m = String::from_str("duplicate field `");
                m.append(f);
                m.append("`");
                m
            },
            NotifyError::MissingSummary => String::from_str("missing field `summary`"),
            NotifyError::EmptySummary => String::from_str("notification summary is empty"),
        }
    }
}

/// Reading the fields `f[i..]` of a notification table, having read the
/// summary and the body so far.
pub open spec fn read_from(
    f: Seq<(Seq<char>, Seq<char>)>,
    i: int,
    summary: Option<Seq<char>>,
    body: Option<Seq<char>>,
) -> Result<(Seq<char>, Seq<char>), NotifyFailure>
    decreases f.len() - i,
{
    if 0 <= i < f.len() {
        let (k, v) = f[i];
        if k == "summary"@ {
            if summary is Some {
                Err(NotifyFailure::DuplicateField("summary"@))
            } else {
                read_from(f, i + 1, Some(v), body)
            }
        } else if k == "body"@ {
            if body is Some {
                Err(NotifyFailure::DuplicateField("body"@))
            } else {
                read_from(f, i + 1, summary, Some(v))
            }
        } else {
            Err(NotifyFailure::UnknownField(k))
        }
    } else {
        match summary {
            None => Err(NotifyFailure::MissingSummary),
            Some(s) => if is_blank(s) {
                Err(NotifyFailure::EmptySummary)
            } else {
                Ok(
                    (
                        s,
                        match body {
                            Some(b) => b,
                            None => Seq::empty(),
                        },
                    ),
                )
            },
        }
    }
}

/// The notification a table's fields read as, in their order: the
/// summary and the body of a table holding a non-blank `summary`, at
/// most one `body`, and nothing else.
pub open spec fn read_fields(f: Seq<(Seq<char>, Seq<char>)>) -> Result<
    (Seq<char>, Seq<char>),
    NotifyFailure,
> {
    read_from(f, 0, None, None)
}

/// The fields a notification is written as: its summary, then its body
/// unless it is empty.
pub open spec fn write_fields(summary: Seq<char>, body: Seq<char>) -> Seq<(Seq<char>, Seq<char>)> {
    if body.len() == 0 {
        seq![("summary"@, summary)]
    } else {
        seq![("summary"@, summary), ("body"@, body)]
    }
}

/// The texts of a table's string fields.
pub open spec fn field_texts(f: Seq<(String, String)>) -> Seq<(Seq<char>, Seq<char>)> {
    f.map_values(|e: (String, String)| (e.0@, e.1@))
}

impl Notification {
    /// Reads a notification from the string fields of its table, in
    /// order.
    pub fn from_fields(fields: Vec<(String, String)>) -> (res: Result<Notification, NotifyError>)
        ensures
            match res {
                Ok(n) => read_fields(field_texts(fields@)) == Ok::<
                    (Seq<char>, Seq<char>),
                    NotifyFailure,
                >((n.summary@, n.body@)),
                Err(e) => read_fields(field_texts(fields@)) == Err::<
                    (Seq<char>, Seq<char>),
                    NotifyFailure,
                >(e.failure()),
            },
    {
        let ghost f = field_texts(fields@);
        let mut rest = fields;
        let mut summary: Option<String> = None;
        let mut body: Option<String> = None;
        let n = rest.len();
        let mut i: usize = 0;
        while i < n
            invariant
                0 <= i <= n == f.len(),
                f == field_texts(fields@),
                rest@.len() == n - i,
                forall|j: int| 0 <= j < rest@.len() ==> f[j + i] == (#[trigger] rest@[j].0@, rest@[j].1@),
                read_fields(f) == read_from(
                    f,
                    i as int,
                    match summary {
                        Some(s) => Some(s@),
                        None => None,
                    },
                    match body {
                        Some(b) => Some(b@),
                        None => None,
                    },
                ),
            decreases n - i,
        {
            let ghost before = rest@;
            let (key, value) = rest.remove(0);
            proof {
                assert(f[i as int] == (key@, value@)) by {
                    assert(before[0] == (key, value));
                }
                assert forall|j: int| 0 <= j < rest@.len() implies f[j + (i + 1)] == (
                    #[trigger] rest@[j].0@,
                    rest@[j].1@,
                ) by {
                    assert(rest@[j] == before[j + 1]);
                }
            }
            if same_text(key.as_str(), "summary") {
                if summary.is_some() {
                    return Err(NotifyError::DuplicateField("summary"));
                }
                summary = Some(value);
            } else if same_text(key.as_str(), "body") {
                if body.is_some() {
                    return Err(NotifyError::DuplicateField("body"));
                }
                body = Some(value);
            } else {
                return Err(NotifyError::UnknownField(key));
            }
            i = i + 1;
        }
        let summary = match summary {
            Some(s) => s,
            None => {
                return Err(NotifyError::MissingSummary);
            },
        };
        if is_blank_str(summary.as_str()) {
            return Err(NotifyError::EmptySummary);
        }
        let body = match body {
            Some(b) => b,
            None => String::new(),
        };
        Ok(Notification { summary, body })
    }

    /// The string fields this notification is written as: its summary,
    /// then its body unless it is empty.
    pub fn to_fields(&self) -> (res: Vec<(String, String)>)
        ensures
            field_texts(res@) == write_fields(self.summary@, self.body@),
    {
        let mut res: Vec<(String, String)> = Vec::new();
        res.push((String::from_str("summary"), self.summary.clone()));
        if self.body.as_str().unicode_len() > 0 {
            res.push((String::from_str("body"), self.body.clone()));
        }
        assert(field_texts(res@) =~= write_fields(self.summary@, self.body@));
        res
    }
}

/// A notification written and read again is the same notification, as
/// long as it has something to show.
pub proof fn lemma_notification_round_trip(summary: Seq<char>, body: Seq<char>)
    requires
        !is_blank(summary),
    ensures
        read_fields(write_fields(summary, body)) == Ok::<(Seq<char>, Seq<char>), NotifyFailure>(
            (summary, body),
        ),
{
    reveal_strlit("summary");
    reveal_strlit("body");
    let f = write_fields(summary, body);
    assert("summary"@.len() == 7);
    assert("body"@.len() == 4);
    assert("summary"@ != "body"@);
    if body.len() == 0 {
        assert(read_from(f, 1, Some(summary), None) == Ok::<
            (Seq<char>, Seq<char>),
            NotifyFailure,
        >((summary, Seq::<char>::empty())));
        assert(body =~= Seq::<char>::empty());
    } else {
        assert(read_from(f, 2, Some(summary), Some(body)) == Ok::<
            (Seq<char>, Seq<char>),
            NotifyFailure,
        >((summary, body)));
    }
}

/// A notification with nothing to show is refused: a blank summary, or
/// none at all.
pub proof fn lemma_nothing_to_show_is_refused(f: Seq<(Seq<char>, Seq<char>)>)
    ensures
        read_fields(f) matches Ok(n) ==> !is_blank(n.0),
{
    lemma_read_from_shows(f, 0, None, None);
}

proof fn lemma_read_from_shows(
    f: Seq<(Seq<char>, Seq<char>)>,
    i: int,
    summary: Option<Seq<char>>,
    body: Option<Seq<char>>,
)
    ensures
        read_from(f, i, summary, body) matches Ok(n) ==> !is_blank(n.0),
    decreases f.len() - i,
{
    if 0 <= i < f.len() {
        let (k, v) = f[i];
        lemma_read_from_shows(f, i + 1, Some(v), body);
        lemma_read_from_shows(f, i + 1, summary, Some(v));
    }
}

} // verus!
