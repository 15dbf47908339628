//! A JSON document as the library reads it from text, lookups by member
//! name, and the JSON text of a string.
use vstd::prelude::*;

use crate::text::str_eq;

verus! {

/// A JSON value. Numbers keep their text; object members keep their order.
#[derive(Debug)]
pub enum Json {
    Null,
    Bool(bool),
    Number(String),
    Str(String),
    Array(Vec<Json>),
    Object(Vec<(String, Json)>),
}

/// The first member of `fields` named `key`.
pub open spec fn member(fields: Seq<(String, Json)>, key: Seq<char>) -> Option<Json>
    decreases fields.len(),
{
    if fields.len() == 0 {
        None
    } else if fields[0].0@ == key {
        Some(fields[0].1)
    } else {
        member(fields.drop_first(), key)
    }
}

/// The member `key` of an object (nothing for any other value).
pub open spec fn get_spec(doc: Json, key: Seq<char>) -> Option<Json> {
    match doc {
        Json::Object(fs) => member(fs@, key),
        _ => None,
    }
}

/// The value at a path of member names.
pub open spec fn path_spec(doc: Json, keys: Seq<Seq<char>>) -> Option<Json>
    decreases keys.len(),
{
    if keys.len() == 0 {
        Some(doc)
    } else {
        match get_spec(doc, keys[0]) {
            Some(d) => path_spec(d, keys.drop_first()),
            None => None,
        }
    }
}

/// The text of a string value.
pub open spec fn str_of(doc: Option<Json>) -> Option<Seq<char>> {
    match doc {
        Some(Json::Str(s)) => Some(s@),
        _ => None,
    }
}

impl Json {
    /// The member `key`, if this is an object that has one.
    pub fn get(&self, key: &str) -> (r: Option<&Json>)
        ensures
            match (r, get_spec(*self, key@)) {
                (Some(a), Some(b)) => *a == b,
                (None, None) => true,
                _ => false,
            },
    {
        match self {
            Json::Object(fs) => {
                let mut k: usize = 0;
                assert(fs@.skip(0) =~= fs@);
                while k < fs.len()
                    invariant
                        *self == Json::Object(*fs),
                        k <= fs@.len(),
                        member(fs@, key@) == member(fs@.skip(k as int), key@),
                    decreases fs@.len() - k,
                {
                    assert(fs@.skip(k as int).drop_first() =~= fs@.skip(k + 1));
                    assert(fs@.skip(k as int)[0] == fs@[k as int]);
                    if str_eq(fs[k].0.as_str(), key) {
                        return Some(&fs[k].1);
                    }
                    k += 1;
                }
                assert(fs@.skip(k as int).len() == 0);
                None
            },
            _ => None,
        }
    }

    /// The text of this value if it is a string.
    pub fn as_str(&self) -> (r: Option<&str>)
        ensures
            match (r, str_of(Some(*self))) {
                (Some(a), Some(b)) => a@ == b,
                (None, None) => true,
                _ => false,
            },
    {
        match self {
            Json::Str(s) => Some(s.as_str()),
            _ => None,
        }
    }
}

/// The string at `doc.k1.k2`, if there is one.
pub fn str_at2(doc: &Json, k1: &str, k2: &str) -> (r: Option<String>)
    ensures
        match (r, str_of(path_spec(*doc, seq![k1@, k2@]))) {
            (Some(a), Some(b)) => a@ == b,
            (None, None) => true,
            _ => false,
        },
{
    proof {
        assert(seq![k1@, k2@].drop_first() =~= seq![k2@]);
        assert(seq![k2@].drop_first() =~= Seq::<Seq<char>>::empty());
        reveal_with_fuel(path_spec, 3);
    }
    match doc.get(k1) {
        None => None,
        Some(d) => match d.get(k2) {
            None => None,
            Some(v) => match v.as_str() {
                Some(s) => Some(String::from_str(s)),
                None => None,
            },
        },
    }
}

// ---------------------------------------------------------------- writing
/// The JSON escape of one character: quotes, backslashes and control
/// characters are escaped (`\b \t \n \f \r`, else `\u00XX` in lowercase
/// hex); everything else stands for itself.
pub open spec fn escape_char(c: char) -> Seq<char> {
    let v = c as u32;
    if c == '"' {
        "\\\""@
    } else if c == '\\' {
        "\\\\"@
    } else if v == 8 {
        "\\b"@
    } else if v == 9 {
        "\\t"@
    } else if v == 10 {
        "\\n"@
    } else if v == 12 {
        "\\f"@
    } else if v == 13 {
        "\\r"@
    } else if v < 32 {
        "\\u00"@ + seq![hex_digit_char((v / 16) as int), hex_digit_char((v % 16) as int)]
    } else {
        seq![c]
    }
}

pub open spec fn hex_digit_char(d: int) -> char {
    if d < 10 {
        ((d + 48) as u32) as char
    } else {
        ((d + 87) as u32) as char
    }
}

/// The escaped characters of `s`.
pub open spec fn escape_all(s: Seq<char>) -> Seq<char>
    decreases s.len(),
{
    if s.len() == 0 {
        seq![]
    } else {
        escape_all(s.drop_last()) + escape_char(s.last())
    }
}

/// The JSON text of a string value (what `serde_json` writes for it).
pub open spec fn json_string_spec(s: Seq<char>) -> Seq<char> {
    "\""@ + escape_all(s) + "\""@
}

proof fn lemma_plain_text_unescaped(s: Seq<char>)
    requires
        forall|i: int| 0 <= i < s.len() ==> #[trigger] s[i] != '"' && s[i] != '\\' && s[i] as u32 >= 32,
    ensures
        escape_all(s) == s,
    decreases s.len(),
{
    if s.len() > 0 {
        lemma_plain_text_unescaped(s.drop_last());
        assert(s[s.len() - 1] == s.last());
        assert(s.drop_last() + seq![s.last()] =~= s);
    }
}

/// How a string is written as JSON: `"` and `\` get a backslash, the
/// control characters backspace, tab, newline, form feed and carriage return
/// are written `\b \t \n \f \r`, the other characters below U+0020 as
/// `\u00` and two lowercase hex digits, and every other character stands
/// for itself, so text free of quotes, backslashes and control characters
/// is written as it is, between quotes.
pub proof fn law_json_string_escapes(s: Seq<char>)
    ensures
        escape_char('"') == seq!['\\', '"'],
        escape_char('\\') == seq!['\\', '\\'],
        escape_char('\u{8}') == seq!['\\', 'b'],
        escape_char('\t') == seq!['\\', 't'],
        escape_char('\n') == seq!['\\', 'n'],
        escape_char('\u{c}') == seq!['\\', 'f'],
        escape_char('\r') == seq!['\\', 'r'],
        escape_char('\u{1}') == seq!['\\', 'u', '0', '0', '0', '1'],
        escape_char('\u{1f}') == seq!['\\', 'u', '0', '0', '1', 'f'],
        (forall|i: int| 0 <= i < s.len() ==> #[trigger] s[i] != '"' && s[i] != '\\' && s[i] as u32 >= 32)
            ==> json_string_spec(s) == seq!['"'] + s + seq!['"'],
{
    reveal_strlit("\\\"");
    reveal_strlit("\\\\");
    reveal_strlit("\\b");
    reveal_strlit("\\t");
    reveal_strlit("\\n");
    reveal_strlit("\\f");
    reveal_strlit("\\r");
    reveal_strlit("\\u00");
    reveal_strlit("\"");
    assert(escape_char('\u{1}') =~= seq!['\\', 'u', '0', '0', '0', '1']);
    assert(escape_char('\u{1f}') =~= seq!['\\', 'u', '0', '0', '1', 'f']);
    if forall|i: int| 0 <= i < s.len() ==> #[trigger] s[i] != '"' && s[i] != '\\' && s[i] as u32 >= 32 {
        lemma_plain_text_unescaped(s);
    }
}

/// The JSON text of a string.
///
/// Trusted: calls `serde_json::to_string` on the string, which writes it
/// quoted, with `"` and `\` escaped, `\b \t \n \f \r` for those control
/// characters and `\u00XX` (lowercase hex) for the other ones below 32, as
/// `json_string_spec` says. Writing a string into memory cannot fail.
#[verifier::external_body]
fn json_string_text(s: &str) -> (r: String)
    ensures
        r@ == json_string_spec(s@),
{
    match serde_json::to_string(s) {
        Ok(t) => t,
        Err(_) => String::new(),
    }
}

/// Appends the JSON text of the string `s`.
pub fn push_json_string(out: &mut String, s: &str)
    ensures
        final(out)@ == old(out)@ + json_string_spec(s@),
{
    let t = json_string_text(s);
    out.append(t.as_str());
}

/// The compact JSON text of an object whose members are all strings, in
/// the given order.
pub open spec fn string_object_spec(members: Seq<(Seq<char>, Seq<char>)>) -> Seq<char> {
    "{"@ + members_text(members) + "}"@
}

pub open spec fn members_text(members: Seq<(Seq<char>, Seq<char>)>) -> Seq<char>
    decreases members.len(),
{
    if members.len() == 0 {
        seq![]
    } else if members.len() == 1 {
        json_string_spec(members[0].0) + ":"@ + json_string_spec(members[0].1)
    } else {
        members_text(members.drop_last()) + ","@ + json_string_spec(members.last().0) + ":"@
            + json_string_spec(members.last().1)
    }
}

/// `{"key":"value"}`.
pub fn object1(key: &str, value: &str) -> (r: String)
    ensures
        r@ == string_object_spec(seq![(key@, value@)]),
{
    let mut s = String::from_str("{");
    push_json_string(&mut s, key);
    s.append(":");
    push_json_string(&mut s, value);
    s.append("}");
    s
}

/// `{"k1":"v1","k2":"v2"}`.
pub fn object2(k1: &str, v1: &str, k2: &str, v2: &str) -> (r: String)
    ensures
        r@ == string_object_spec(seq![(k1@, v1@), (k2@, v2@)]),
{
    let mut s = String::from_str("{");
    push_json_string(&mut s, k1);
    s.append(":");
    push_json_string(&mut s, v1);
    s.append(",");
    push_json_string(&mut s, k2);
    s.append(":");
    push_json_string(&mut s, v2);
    s.append("}");
    let ghost two = seq![(k1@, v1@), (k2@, v2@)];
    assert(two.drop_last() =~= seq![(k1@, v1@)]);
    assert(members_text(seq![(k1@, v1@)]) == json_string_spec(k1@) + ":"@ + json_string_spec(v1@));
    assert(members_text(two) == members_text(two.drop_last()) + ","@ + json_string_spec(k2@) + ":"@
        + json_string_spec(v2@));
    assert(s@ =~= string_object_spec(two));
    s
}

// ---------------------------------------------------------------- reading
#[verifier::external_type_specification]
#[verifier::external_body]
pub struct ExJsonValue(serde_json::Value);

/// The document that serde_json reads from `text`, if the text is JSON.
pub uninterp spec fn json_read(text: Seq<char>) -> Option<Json>;

/// One serde_json value as the library's document: numbers keep serde_json's
/// text for them, object members come in the order serde_json's map holds them.
#[verifier::external_body]
fn json_from_value(v: serde_json::Value) -> (r: Json) {
    match v {
        serde_json::Value::Null => Json::Null,
        serde_json::Value::Bool(b) => Json::Bool(b),
        serde_json::Value::Number(n) => Json::Number(n.to_string()),
        serde_json::Value::String(t) => Json::Str(t),
        serde_json::Value::Array(items) => Json::Array(items.into_iter().map(json_from_value).collect()),
        serde_json::Value::Object(m) => Json::Object(m.into_iter().map(|(k, x)| (k, json_from_value(x))).collect()),
    }
}

/// Reads JSON text.
///
/// Trusted: calls `serde_json::from_str` for a `serde_json::Value`, whose
/// result depends on the text alone; the contract names the document it
/// gives and says that it fails exactly when there is none. The text of its
/// error message is left unsaid.
#[verifier::external_body]
pub(crate) fn read_json(text: &str) -> (r: Result<Json, String>)
    ensures
        r is Ok <==> json_read(text@) is Some,
        r matches Ok(j) ==> json_read(text@) == Some(j),
{
    match serde_json::from_str::<serde_json::Value>(text) {
        Ok(v) => Ok(json_from_value(v)),
        Err(e) => Err(e.to_string()),
    }
}

/// Parses JSON text into a document; an error message starts with
/// `json_parse: `.
pub fn json_parse(text: &str) -> (r: Result<Json, String>)
    ensures
        r is Ok <==> json_read(text@) is Some,
        r matches Ok(j) ==> json_read(text@) == Some(j),
        r matches Err(m) ==> m@.len() >= 12 && m@.subrange(0, 12) == "json_parse: "@,
{
    match read_json(text) {
        Ok(j) => Ok(j),
        Err(e) => {
            let mut m = String::from_str("json_parse: ");
            m.append(e.as_str());
            proof {
                reveal_strlit("json_parse: ");
            }
            assert(m@.subrange(0, 12) =~= "json_parse: "@);
            Err(m)
        },
    }
}

} // verus!
