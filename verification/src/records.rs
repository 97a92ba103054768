//! Results as records of a JSON Lines log.
//!
//! A record is an object with the members `username`, `status` and `checked_at`. The
//! status is an object whose member `kind` names the outcome; beside it stands what
//! the outcome carries.
use vstd::prelude::*;
use vstd::string::*;

use crate::json::Json;
#[allow(unused_imports)]
use crate::json::{find, Tree};
use crate::result::{CheckResult, Status};
#[allow(unused_imports)]
use crate::result::{ResultView, StatusView};

verus! {

/// A whole number in a record.
pub open spec fn whole(n: u64) -> Tree {
    Tree::Number { whole: Some(n), bits: None }
}

impl StatusView {
    /// The name of the outcome in a record.
    pub open spec fn record_kind(self) -> Seq<char> {
        match self {
            StatusView::Available => "available"@,
            StatusView::Taken => "taken"@,
            StatusView::Invalid { .. } => "invalid"@,
            StatusView::RateLimited { .. } => "rate_limited"@,
            StatusView::Error { .. } => "error"@,
        }
    }

    /// The outcome in a record.
    pub open spec fn record(self) -> Tree {
        let kind = ("kind"@, Tree::Str(self.record_kind()));
        Tree::Object(
            match self {
                StatusView::Available => seq![kind],
                StatusView::Taken => seq![kind],
                StatusView::Invalid { reason } => seq![kind, ("reason"@, Tree::Str(reason))],
                StatusView::RateLimited { retry_after_ms } => seq![
                    kind,
                    (
                        "retry_after_ms"@,
                        match retry_after_ms {
                            Some(ms) => whole(ms),
                            None => Tree::Null,
                        },
                    ),
                ],
                StatusView::Error { reason } => seq![kind, ("reason"@, Tree::Str(reason))],
            },
        )
    }
}

impl ResultView {
    /// The record of the result.
    pub open spec fn record(self) -> Tree {
        Tree::Object(
            seq![
                ("username"@, Tree::Str(self.username)),
                ("status"@, self.status.record()),
                ("checked_at"@, whole(self.checked_at)),
            ],
        )
    }
}

/// A member of an object.
fn member(key: &str, value: Json) -> (member: (String, Json))
    ensures
        member.0@ == key@,
        member.1 == value,
{
    (key.to_owned(), value)
}

fn text(s: &str) -> (json: Json)
    ensures
        json.tree() == Tree::Str(s@),
{
    Json::Str(s.to_owned())
}

fn number(n: u64) -> (json: Json)
    ensures
        json.tree() == whole(n),
{
    Json::Number { whole: Some(n), bits: None }
}

fn null() -> (json: Json)
    ensures
        json.tree() == Tree::Null,
{
    Json::Null
}

fn object(members: Vec<(String, Json)>) -> (json: Json)
    ensures
        json.tree() == Tree::Object(
            Seq::new(members@.len(), |i: int| (members@[i].0@, members@[i].1.tree())),
        ),
{
    let json = Json::Object(members);
    assert(json.tree()->Object_0 =~= Seq::new(
        members@.len(),
        |i: int| (members@[i].0@, members@[i].1.tree()),
    ));
    json
}

/// The outcome as a JSON object.
pub fn status_record(status: &Status) -> (json: Json)
    ensures
        json.tree() == status@.record(),
{
    let json = match status {
        Status::Available => object(vec![member("kind", text("available"))]),
        Status::Taken => object(vec![member("kind", text("taken"))]),
        Status::Invalid { reason } => object(
            vec![member("kind", text("invalid")), member("reason", text(reason.as_str()))],
        ),
        Status::RateLimited { retry_after_ms } => {
            let wait = match retry_after_ms {
                Some(ms) => number(*ms),
                None => null(),
            };
            object(vec![member("kind", text("rate_limited")), member("retry_after_ms", wait)])
        },
        Status::Error { reason } => object(
            vec![member("kind", text("error")), member("reason", text(reason.as_str()))],
        ),
    };
    assert(json.tree()->Object_0 =~= status@.record()->Object_0);
    json
}

/// The record of a result as a JSON object.
pub fn result_record(result: &CheckResult) -> (json: Json)
    ensures
        json.tree() == result@.record(),
{
    let json = object(
        vec![
            member("username", text(result.username.as_str())),
            member("status", status_record(&result.status)),
            member("checked_at", number(result.checked_at)),
        ],
    );
    assert(json.tree()->Object_0 =~= result@.record()->Object_0);
    json
}

/// The text that a member holds.
pub open spec fn text_member(tree: Tree, key: Seq<char>) -> Option<Seq<char>> {
    match tree.member(key) {
        Some(Tree::Str(text)) => Some(text),
        _ => None,
    }
}

/// The wait that an object records: none where the member is missing or null.
pub open spec fn recorded_wait(tree: Tree) -> Option<Option<u64>> {
    match tree.member("retry_after_ms"@) {
        None => Some(None),
        Some(Tree::Null) => Some(None),
        Some(Tree::Number { whole: Some(ms), .. }) => Some(Some(ms)),
        Some(_) => None,
    }
}

/// The time that an object records: 0, for "unset", where the member is missing.
pub open spec fn recorded_time(tree: Tree) -> Option<u64> {
    match tree.member("checked_at"@) {
        None => Some(0),
        Some(Tree::Number { whole: Some(secs), .. }) => Some(secs),
        Some(_) => None,
    }
}

/// The outcome that the object `tree` records.
pub open spec fn recorded_status(tree: Tree) -> Option<StatusView> {
    match text_member(tree, "kind"@) {
        Some(kind) => if kind == "available"@ {
            Some(StatusView::Available)
        } else if kind == "taken"@ {
            Some(StatusView::Taken)
        } else if kind == "rate_limited"@ {
            match recorded_wait(tree) {
                Some(retry_after_ms) => Some(StatusView::RateLimited { retry_after_ms }),
                None => None,
            }
        } else {
            match text_member(tree, "reason"@) {
                Some(reason) => if kind == "invalid"@ {
                    Some(StatusView::Invalid { reason })
                } else if kind == "error"@ {
                    Some(StatusView::Error { reason })
                } else {
                    None
                },
                None => None,
            }
        },
        None => None,
    }
}

/// The result that the object `tree` records.
pub open spec fn recorded_result(tree: Tree) -> Option<ResultView> {
    let status = match tree.member("status"@) {
        Some(object) => recorded_status(object),
        None => None,
    };
    match (text_member(tree, "username"@), status, recorded_time(tree)) {
        (Some(username), Some(status), Some(checked_at)) => Some(
            ResultView { username, status, checked_at },
        ),
        _ => None,
    }
}

proof fn lemma_status_reads_back(status: StatusView)
    ensures
        recorded_status(status.record()) == Some(status),
{
    reveal_with_fuel(find, 3);
    reveal_strlit("kind");
    reveal_strlit("reason");
    reveal_strlit("retry_after_ms");
    reveal_strlit("available");
    reveal_strlit("taken");
    reveal_strlit("invalid");
    reveal_strlit("rate_limited");
    reveal_strlit("error");
    assert("kind"@.len() == 4 && "reason"@.len() == 6 && "retry_after_ms"@.len() == 14);
    assert("available"@.len() == 9 && "taken"@.len() == 5 && "invalid"@.len() == 7);
    assert("rate_limited"@.len() == 12 && "error"@.len() == 5);
    assert("taken"@[0] != "error"@[0]);
}

/// A record reads back as its result: name, outcome with all that it carries, and
/// time.
pub proof fn law_record_reads_back(result: ResultView)
    ensures
        recorded_result(result.record()) == Some(result),
{
    reveal_with_fuel(find, 4);
    reveal_strlit("username");
    reveal_strlit("status");
    reveal_strlit("checked_at");
    assert("username"@.len() == 8 && "status"@.len() == 6 && "checked_at"@.len() == 10);
    let members = result.record()->Object_0;
    assert(members.drop_first()[0] == members[1]);
    assert(members.drop_first().drop_first()[0] == members[2]);
    lemma_status_reads_back(result.status);
}

/// The members of a record say what the result holds.
pub proof fn law_record_says_what_the_result_holds(result: ResultView)
    ensures
        result.record().member("username"@) == Some(Tree::Str(result.username)),
        result.record().member("checked_at"@) == Some(
            Tree::Number { whole: Some(result.checked_at), bits: None },
        ),
        ({
            let status = result.status.record();
            &&& result.record().member("status"@) == Some(status)
            &&& match result.status {
                StatusView::Available => status.member("kind"@) == Some(
                    Tree::Str("available"@),
                ),
                StatusView::Taken => status.member("kind"@) == Some(Tree::Str("taken"@)),
                StatusView::Invalid { reason } => status.member("kind"@) == Some(
                    Tree::Str("invalid"@),
                ) && status.member("reason"@) == Some(Tree::Str(reason)),
                StatusView::RateLimited { retry_after_ms: Some(ms) } => status.member("kind"@)
                    == Some(Tree::Str("rate_limited"@)) && status.member("retry_after_ms"@) == Some(
                    Tree::Number { whole: Some(ms), bits: None },
                ),
                StatusView::RateLimited { retry_after_ms: None } => status.member("kind"@) == Some(
                    Tree::Str("rate_limited"@),
                ) && status.member("retry_after_ms"@) == Some(Tree::Null),
                StatusView::Error { reason } => status.member("kind"@) == Some(
                    Tree::Str("error"@),
                ) && status.member("reason"@) == Some(Tree::Str(reason)),
            }
        }),
{
    reveal_with_fuel(find, 4);
    reveal_strlit("username");
    reveal_strlit("status");
    reveal_strlit("checked_at");
    reveal_strlit("kind");
    reveal_strlit("reason");
    reveal_strlit("retry_after_ms");
    assert("username"@.len() == 8 && "status"@.len() == 6 && "checked_at"@.len() == 10);
    assert("kind"@.len() == 4 && "reason"@.len() == 6 && "retry_after_ms"@.len() == 14);
    let members = result.record()->Object_0;
    assert(members.drop_first()[0] == members[1]);
    assert(members.drop_first().drop_first()[0] == members[2]);
    let inner = result.status.record()->Object_0;
    if inner.len() > 1 {
        assert(inner.drop_first()[0] == inner[1]);
    }
}

} // verus!
