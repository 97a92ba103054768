//! JSON documents as the checker reads them.
//!
//! `serde_json` reads the text. Its value is taken apart into [`Json`], which
//! holds what the checker looks at as plain values.
use serde_json::Value;
use vstd::prelude::*;

use crate::text::same_text;

verus! {

/// A JSON document.
#[derive(Debug, PartialEq, Eq)]
pub enum Json {
    Null,
    Bool(bool),
    /// A number. `whole` is its value where it is a whole number that fits, as
    /// `Number::as_u64` gives it; `bits` is the bit pattern of the `binary64` number
    /// that `Number::as_f64` gives, where it was read from a text.
    Number { whole: Option<u64>, bits: Option<u64> },
    Str(String),
    Array(Vec<Json>),
    /// The members, in the order of the object.
    Object(Vec<(String, Json)>),
}

/// A [`Json`] with its texts and lists as sequences.
pub enum Tree {
    Null,
    Bool(bool),
    Number { whole: Option<u64>, bits: Option<u64> },
    Str(Seq<char>),
    Array(Seq<Tree>),
    Object(Seq<(Seq<char>, Tree)>),
}

impl Json {
    /// The document as a tree of plain values.
    pub open spec fn tree(&self) -> Tree
        decreases self,
    {
        match self {
            Json::Null => Tree::Null,
            Json::Bool(b) => Tree::Bool(*b),
            Json::Number { whole, bits } => Tree::Number { whole: *whole, bits: *bits },
            Json::Str(s) => Tree::Str(s@),
            Json::Array(items) => Tree::Array(
                Seq::new(
                    items@.len(),
                    |i: int|
                        if 0 <= i < items@.len() {
                            items@[i].tree()
                        } else {
                            Tree::Null
                        },
                ),
            ),
            Json::Object(members) => Tree::Object(
                Seq::new(
                    members@.len(),
                    |i: int|
                        if 0 <= i < members@.len() {
                            (members@[i].0@, members@[i].1.tree())
                        } else {
                            (seq![], Tree::Null)
                        },
                ),
            ),
        }
    }
}

/// `serde_json::Value`, any JSON document.
#[verifier::external_type_specification]
#[verifier::external_body]
pub struct ExValue(serde_json::Value);

/// What a `serde_json::Value` holds.
pub uninterp spec fn value_tree(value: Value) -> Tree;

/// What `serde_json::from_str` reads from a text, where it is a JSON document.
pub uninterp spec fn json_text(text: Seq<char>) -> Option<Tree>;

/// `serde_json::from_str` into a `Value`: the document that the text spells, or
/// nothing where it spells none.
#[verifier::external_body]
fn read_value(text: &str) -> (value: Option<Value>)
    ensures
        match value {
            Some(v) => json_text(text@) == Some(value_tree(v)),
            None => json_text(text@) is None,
        },
{
    serde_json::from_str(text).ok()
}

/// The outermost layer of a `serde_json::Value`.
enum Layer {
    Null,
    Bool(bool),
    Number { whole: Option<u64>, bits: Option<u64> },
    Str(String),
    Array(Vec<Value>),
    Object(Vec<(String, Value)>),
}

/// The document whose outermost layer is `layer`.
spec fn layer_tree(layer: Layer) -> Tree {
    match layer {
        Layer::Null => Tree::Null,
        Layer::Bool(b) => Tree::Bool(b),
        Layer::Number { whole, bits } => Tree::Number { whole, bits },
        Layer::Str(s) => Tree::Str(s@),
        Layer::Array(items) => Tree::Array(
            Seq::new(items@.len(), |i: int| value_tree(items@[i])),
        ),
        Layer::Object(members) => Tree::Object(
            Seq::new(members@.len(), |i: int| (members@[i].0@, value_tree(members@[i].1))),
        ),
    }
}

/// The variants of `serde_json::Value`, one for one: what the value holds is its
/// outermost layer and what the values in that layer hold. A number is read by
/// `Number::as_u64` and `Number::as_f64`, a map by its iterator.
#[verifier::external_body]
fn take_apart(value: Value) -> (layer: Layer)
    ensures
        layer_tree(layer) == value_tree(value),
{
    match value {
        Value::Null => Layer::Null,
        Value::Bool(b) => Layer::Bool(b),
        Value::Number(n) => Layer::Number {
            whole: n.as_u64(),
            bits: n.as_f64().map(|x| x.to_bits()),
        },
        Value::String(s) => Layer::Str(s),
        Value::Array(items) => Layer::Array(items),
        Value::Object(members) => Layer::Object(members.into_iter().collect()),
    }
}

/// Converts a `serde_json::Value`, layer by layer.
fn json_of(value: Value) -> (json: Json)
    ensures
        json.tree() == value_tree(value),
    decreases value_tree(value),
{
    let ghost whole = value_tree(value);
    match take_apart(value) {
        Layer::Null => Json::Null,
        Layer::Bool(b) => Json::Bool(b),
        Layer::Number { whole, bits } => Json::Number { whole, bits },
        Layer::Str(s) => Json::Str(s),
        Layer::Array(items) => {
            let ghost all = items@;
            let mut out: Vec<Json> = Vec::new();
            for item in it: items
                invariant
                    it.seq() == all,
                    whole == value_tree(value),
                    whole == Tree::Array(Seq::new(all.len(), |i: int| value_tree(all[i]))),
                    out@.len() == it.index(),
                    forall|k: int|
                        0 <= k < out@.len() ==> (#[trigger] out@[k]).tree() == value_tree(all[k]),
            {
                proof {
                    let at = it.index();
                    assert(whole->Array_0[at] == value_tree(item));
                    assert(decreases_to!(whole => whole->Array_0));
                    assert(decreases_to!(whole->Array_0 => whole->Array_0[at]));
                }
                out.push(json_of(item));
            }
            let json = Json::Array(out);
            assert(json.tree()->Array_0 =~= whole->Array_0);
            json
        },
        Layer::Object(members) => {
            let ghost all = members@;
            let mut out: Vec<(String, Json)> = Vec::new();
            for member in it: members
                invariant
                    it.seq() == all,
                    whole == value_tree(value),
                    whole == Tree::Object(
                        Seq::new(all.len(), |i: int| (all[i].0@, value_tree(all[i].1))),
                    ),
                    out@.len() == it.index(),
                    forall|k: int|
                        0 <= k < out@.len() ==> (#[trigger] out@[k]).0@ == all[k].0@
                            && out@[k].1.tree() == value_tree(all[k].1),
            {
                proof {
                    let at = it.index();
                    assert(whole->Object_0[at].1 == value_tree(member.1));
                    assert(decreases_to!(whole => whole->Object_0));
                    assert(decreases_to!(whole->Object_0 => whole->Object_0[at]));
                    assert(decreases_to!(whole->Object_0[at] => whole->Object_0[at].1));
                }
                let (key, item) = member;
                out.push((key, json_of(item)));
            }
            let json = Json::Object(out);
            assert(json.tree()->Object_0 =~= whole->Object_0);
            json
        },
    }
}

/// Reads a JSON document.
pub fn parse_json(text: &str) -> (json: Option<Json>)
    ensures
        match json {
            Some(j) => json_text(text@) == Some(j.tree()),
            None => json_text(text@) is None,
        },
{
    match read_value(text) {
        Some(value) => Some(json_of(value)),
        None => None,
    }
}

/// The value of the first member with the given key.
pub open spec fn find(members: Seq<(Seq<char>, Tree)>, key: Seq<char>) -> Option<Tree>
    decreases members.len(),
{
    if members.len() == 0 {
        None
    } else if members[0].0 == key {
        Some(members[0].1)
    } else {
        find(members.drop_first(), key)
    }
}

impl Tree {
    /// The member of an object with the given key. Other documents have none.
    pub open spec fn member(self, key: Seq<char>) -> Option<Tree> {
        match self {
            Tree::Object(members) => find(members, key),
            _ => None,
        }
    }
}

impl Json {
    /// Looks up a member of an object.
    pub fn get(&self, key: &str) -> (value: Option<&Json>)
        ensures
            match value {
                Some(json) => self.tree().member(key@) == Some(json.tree()),
                None => self.tree().member(key@) is None,
            },
    {
        match self {
            Json::Object(members) => {
                let ghost all = self.tree()->Object_0;
                let mut i: usize = 0;
                assert(all.skip(0) =~= all);
                while i < members.len()
                    invariant
                        self.tree() == Tree::Object(all),
                        i <= members@.len() == all.len(),
                        forall|k: int|
                            0 <= k < all.len() ==> #[trigger] all[k] == (
                                members@[k].0@,
                                members@[k].1.tree(),
                            ),
                        find(all, key@) == find(all.skip(i as int), key@),
                    decreases members@.len() - i,
                {
                    assert(all.skip(i as int)[0] == all[i as int]);
                    assert(all.skip(i as int).drop_first() =~= all.skip(i + 1));
                    if same_text(members[i].0.as_str(), key) {
                        return Some(&members[i].1);
                    }
                    i = i + 1;
                }
                None
            },
            _ => None,
        }
    }
}

/// A lookup gives the value of the first member with the key, and nothing where no
/// member has it.
pub proof fn law_lookup_gives_the_first_member(members: Seq<(Seq<char>, Tree)>, key: Seq<char>)
    ensures
        match Tree::Object(members).member(key) {
            Some(value) => exists|i: int|
                0 <= i < members.len() && (#[trigger] members[i]).0 == key && members[i].1 == value
                    && (forall|j: int| 0 <= j < i ==> (#[trigger] members[j]).0 != key),
            None => forall|i: int| 0 <= i < members.len() ==> (#[trigger] members[i]).0 != key,
        },
    decreases members.len(),
{
    if members.len() > 0 {
        if members[0].0 == key {
            assert(find(members, key) == Some(members[0].1));
        } else {
            let rest = members.drop_first();
            law_lookup_gives_the_first_member(rest, key);
            assert(find(members, key) == find(rest, key));
            match find(rest, key) {
                Some(value) => {
                    let i = choose|i: int|
                        0 <= i < rest.len() && (#[trigger] rest[i]).0 == key && rest[i].1 == value
                            && (forall|j: int| 0 <= j < i ==> (#[trigger] rest[j]).0 != key);
                    assert(members[i + 1] == rest[i]);
                    assert forall|j: int| 0 <= j < i + 1 implies (#[trigger] members[j]).0
                        != key by {
                        if j > 0 {
                            assert(members[j] == rest[j - 1]);
                        }
                    }
                },
                None => {
                    assert forall|i: int| 0 <= i < members.len() implies (#[trigger] members[i]).0
                        != key by {
                        if i > 0 {
                            assert(members[i] == rest[i - 1]);
                        }
                    }
                },
            }
        }
    }
}

/// Only objects have members.
pub proof fn law_only_objects_have_members(tree: Tree, key: Seq<char>)
    ensures
        !(tree is Object) ==> tree.member(key) is None,
{
}

} // verus!
