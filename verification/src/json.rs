//! JSON documents as the library reads them: the services' replies and
//! the `info.list` index files.
use vstd::prelude::*;
use crate::text::chars_eq_str;
use serde_json::Value;

verus! {

/// A JSON number, as far as the library reads numbers: an integer that is
/// not negative, a negative integer, or a number with a fraction or
/// exponent.
pub enum JsonNumber {
    PosInt(u64),
    NegInt(i64),
    Float,
}

/// A JSON value.  An object keeps its members in the order serde_json
/// gives them: sorted by name, each name once.
pub enum JsonValue {
    Null,
    Bool(bool),
    Number(JsonNumber),
    Str(String),
    Array(Vec<JsonValue>),
    Object(Vec<(String, JsonValue)>),
}

/// The value of the first member named `key` among `members`.
pub open spec fn member(members: Seq<(String, JsonValue)>, key: Seq<char>) -> Option<JsonValue>
    decreases members.len(),
{
    if members.len() == 0 {
        None
    } else if members[0].0@ == key {
        Some(members[0].1)
    } else {
        member(members.drop_first(), key)
    }
}

impl JsonValue {
    /// The member `key` of an object; nothing for other values.
    pub open spec fn field(self, key: Seq<char>) -> Option<JsonValue> {
        match self {
            JsonValue::Object(m) => member(m@, key),
            _ => None,
        }
    }

    /// The text of a string value.
    pub open spec fn text(self) -> Option<Seq<char>> {
        match self {
            JsonValue::Str(s) => Some(s@),
            _ => None,
        }
    }

    /// The text of member `key`, or `dflt` when it is missing or not a
    /// string.
    pub open spec fn text_or(self, key: Seq<char>, dflt: Seq<char>) -> Seq<char> {
        match self.field(key) {
            Some(v) => match v.text() {
                Some(t) => t,
                None => dflt,
            },
            None => dflt,
        }
    }

    /// The elements of an array value.
    pub open spec fn elements(self) -> Option<Seq<JsonValue>> {
        match self {
            JsonValue::Array(v) => Some(v@),
            _ => None,
        }
    }

    /// An integer value that fits in an `i64` (`Value::as_i64`).
    pub open spec fn int64(self) -> Option<i64> {
        match self {
            JsonValue::Number(JsonNumber::PosInt(u)) => if u <= i64::MAX as u64 {
                Some(u as i64)
            } else {
                None
            },
            JsonValue::Number(JsonNumber::NegInt(i)) => Some(i),
            _ => None,
        }
    }

    /// An integer value that is not negative (`Value::as_u64`).
    pub open spec fn uint64(self) -> Option<u64> {
        match self {
            JsonValue::Number(JsonNumber::PosInt(u)) => Some(u),
            _ => None,
        }
    }

    /// The member `key` of an object.
    pub fn get(&self, key: &str) -> (res: Option<&JsonValue>)
        ensures
            match res {
                Some(v) => self.field(key@) == Some(*v),
                None => self.field(key@) is None,
            },
    {
        match self {
            JsonValue::Object(m) => {
                let n = m.len();
                let mut i: usize = 0;
                proof {
                    assert(m@.skip(0) =~= m@);
                }
                while i < n
                    invariant
                        n == m@.len(),
                        self.field(key@) == member(m@, key@),
                        i <= n,
                        member(m@, key@) == member(m@.skip(i as int), key@),
                    decreases n - i,
                {
                    proof {
                        assert(m@.skip(i as int).drop_first() =~= m@.skip(i + 1));
                    }
                    let k = crate::text::chars_of(m[i].0.as_str());
                    if chars_eq_str(&k, key) {
                        proof {
                            let sk = m@.skip(i as int);
                            assert(sk[0] == m@[i as int]);
                            assert(sk[0].0@ == key@);
                        }
                        return Some(&m[i].1);
                    }
                    i += 1;
                }
                None
            },
            _ => None,
        }
    }

    /// The text of a string value.
    pub fn as_str(&self) -> (res: Option<&String>)
        ensures
            match res {
                Some(s) => self.text() == Some(s@),
                None => self.text() is None,
            },
    {
        match self {
            JsonValue::Str(s) => Some(s),
            _ => None,
        }
    }

    /// The elements of an array value.
    pub fn as_array(&self) -> (res: Option<&Vec<JsonValue>>)
        ensures
            match res {
                Some(v) => self.elements() == Some(v@),
                None => self.elements() is None,
            },
    {
        match self {
            JsonValue::Array(v) => Some(v),
            _ => None,
        }
    }

    /// An integer value that fits in an `i64`.
    pub fn as_i64(&self) -> (res: Option<i64>)
        ensures
            res == self.int64(),
    {
        match self {
            JsonValue::Number(JsonNumber::PosInt(u)) => if *u <= i64::MAX as u64 {
                Some(*u as i64)
            } else {
                None
            },
            JsonValue::Number(JsonNumber::NegInt(i)) => Some(*i),
            _ => None,
        }
    }

    /// An integer value that is not negative.
    pub fn as_u64(&self) -> (res: Option<u64>)
        ensures
            res == self.uint64(),
    {
        match self {
            JsonValue::Number(JsonNumber::PosInt(u)) => Some(*u),
            _ => None,
        }
    }

    /// The text of member `key`, or `dflt`.
    pub fn text_or_default(&self, key: &str, dflt: &str) -> (res: String)
        ensures
            res@ == self.text_or(key@, dflt@),
    {
        match self.get(key) {
            Some(v) => match v.as_str() {
                Some(s) => s.clone(),
                None => dflt.to_owned(),
            },
            None => dflt.to_owned(),
        }
    }
}

/// `members` holds exactly one member named `key`, and its value passes
/// the test `p`.
pub open spec fn has_member_where(
    members: Seq<(String, JsonValue)>,
    key: Seq<char>,
    p: spec_fn(JsonValue) -> bool,
) -> bool {
    exists|j: int|
        0 <= j < members.len() && #[trigger] members[j].0@ == key && p(members[j].1) && forall|i: int|
            0 <= i < members.len() && i != j ==> members[i].0@ != key
}

/// The lookup of a member that occurs once finds it, wherever it stands.
pub proof fn lemma_member_where(
    members: Seq<(String, JsonValue)>,
    key: Seq<char>,
    p: spec_fn(JsonValue) -> bool,
)
    requires
        has_member_where(members, key, p),
    ensures
        member(members, key) is Some,
        p(member(members, key)->0),
    decreases members.len(),
{
    let j = choose|j: int|
        0 <= j < members.len() && #[trigger] members[j].0@ == key && p(members[j].1) && forall|i: int|
            0 <= i < members.len() && i != j ==> members[i].0@ != key;
    if j > 0 {
        let rest = members.drop_first();
        assert(members[0].0@ != key);
        assert(rest[j - 1] == members[j]);
        assert forall|i: int| 0 <= i < rest.len() && i != j - 1 implies rest[i].0@ != key by {
            assert(rest[i] == members[i + 1]);
        }
        assert(has_member_where(rest, key, p));
        lemma_member_where(rest, key, p);
    }
}

// ---------------------------------------------------------------------------
// Parsing text with serde_json
// ---------------------------------------------------------------------------

/// serde_json's parsed value, which the library turns into a `JsonValue`.
#[verifier::external_type_specification]
#[verifier::external_body]
pub struct ExSerdeValue(serde_json::Value);

/// What `serde_json::from_str` makes of `text`: the value it parses, as a
/// `JsonValue`, or its error message.
pub uninterp spec fn json_of(text: Seq<char>) -> Result<JsonValue, String>;

/// `v` as a `JsonValue`, variant for variant: an integer that
/// `Number::as_u64` reads stays a non-negative integer, one that only
/// `Number::as_i64` reads a negative one, any other number is a float.
/// Nothing is stated of the result: `serde_json::Value` is opaque here, and
/// the one caller, `parse_json`, states what the two give together.
#[verifier::external_body]
fn value_of(v: &Value) -> JsonValue {
    match v {
        Value::Null => JsonValue::Null,
        Value::Bool(b) => JsonValue::Bool(*b),
        Value::Number(n) => JsonValue::Number(match (n.as_u64(), n.as_i64()) {
            (Some(u), _) => JsonNumber::PosInt(u),
            (None, Some(i)) => JsonNumber::NegInt(i),
            _ => JsonNumber::Float,
        }),
        Value::String(s) => JsonValue::Str(s.clone()),
        Value::Array(a) => JsonValue::Array(a.iter().map(value_of).collect()),
        Value::Object(m) => JsonValue::Object(m.iter().map(|(k, x)| (k.clone(), value_of(x))).collect()),
    }
}

/// `text` parsed by `serde_json::from_str` into a `serde_json::Value` and
/// turned into a `JsonValue`, or the parser's error message
/// (`serde_json::Error` shown with `Display`).  The contract names the
/// result (`json_of`): serde_json's grammar and messages are not restated
/// here; the result depends on `text` alone.
#[verifier::external_body]
pub(crate) fn parse_json(text: &str) -> (res: Result<JsonValue, String>)
    ensures
        res == json_of(text@),
{
    serde_json::from_str::<Value>(text).map(|v| value_of(&v)).map_err(|e| e.to_string())
}

} // verus!
