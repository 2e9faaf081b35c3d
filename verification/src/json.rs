//! JSON documents parsed and printed by `serde_json`.
use vstd::prelude::*;
use vstd::string::StringExecFns;

verus! {

#[verifier::external_type_specification]
#[verifier::external_body]
pub struct ExJsonValue(serde_json::Value);

/// Whether `serde_json::from_str::<serde_json::Value>` accepts the text.
pub uninterp spec fn json_parses(text: Seq<char>) -> bool;

/// What `serde_json::to_string` gives for the value parsed from `text`
/// (`None` for its error).
pub uninterp spec fn json_compact(text: Seq<char>) -> Option<Seq<char>>;

/// What `serde_json::to_string_pretty` gives for the value parsed from
/// `text` (`None` for its error).
pub uninterp spec fn json_pretty(text: Seq<char>) -> Option<Seq<char>>;

/// Whether `serde_json::Value::get` finds `key` in the value parsed from
/// `text` (only an object with that key has it).
pub uninterp spec fn json_has_key(text: Seq<char>, key: Seq<char>) -> bool;

/// `serde_json::from_str` into a `serde_json::Value`: some value exactly when
/// the text parses.
#[verifier::external_body]
fn parse_value(text: &str) -> (r: Option<serde_json::Value>)
    ensures
        r is Some <==> json_parses(text@),
{
    serde_json::from_str::<serde_json::Value>(text).ok()
}

/// The string at `key` of the value parsed from `text`, when the value is an
/// object whose `key` holds a string (`Value::get` then `Value::as_str`).
pub uninterp spec fn json_str_field(text: Seq<char>, key: Seq<char>) -> Option<Seq<char>>;

/// The message of `serde_json`'s error for a text it does not accept.
pub uninterp spec fn json_error_text(text: Seq<char>) -> Seq<char>;

/// `serde_json::from_str` into a `serde_json::Value`, the error turned into
/// its message.
#[verifier::external_body]
fn parse_value_or_message(text: &str) -> (r: Result<serde_json::Value, String>)
    ensures
        r is Ok <==> json_parses(text@),
        r matches Err(m) ==> m@ == json_error_text(text@),
{
    serde_json::from_str::<serde_json::Value>(text).map_err(|e| e.to_string())
}

/// A parsed JSON value together with the text it was parsed from; only
/// `JsonDoc::parse` makes one.
#[derive(Debug)]
pub struct JsonDoc {
    source: String,
    value: serde_json::Value,
}

impl View for JsonDoc {
    type V = Seq<char>;

    /// The text the value was parsed from.
    closed spec fn view(&self) -> Seq<char> {
        self.source@
    }
}

impl JsonDoc {
    /// Parses `text` as JSON.
    pub fn parse(text: &str) -> (r: Option<JsonDoc>)
        ensures
            r is Some <==> json_parses(text@),
            r matches Some(d) ==> d@ == text@,
    {
        match parse_value(text) {
            Some(value) => Some(JsonDoc { source: String::from_str(text), value }),
            None => None,
        }
    }

    /// Parses `text` as JSON; the parser's message when it does not parse.
    pub fn parse_or_message(text: &str) -> (r: Result<JsonDoc, String>)
        ensures
            r is Ok <==> json_parses(text@),
            r matches Ok(d) ==> d@ == text@,
            r matches Err(m) ==> m@ == json_error_text(text@),
    {
        match parse_value_or_message(text) {
            Ok(value) => Ok(JsonDoc { source: String::from_str(text), value }),
            Err(m) => Err(m),
        }
    }

    /// `serde_json::to_string` of the value.
    #[verifier::external_body]
    fn to_string_call(&self) -> (r: Option<String>)
        ensures
            r is Some <==> json_compact(self@) is Some,
            r matches Some(s) ==> json_compact(self@) == Some(s@),
    {
        serde_json::to_string(&self.value).ok()
    }

    /// `serde_json::to_string_pretty` of the value.
    #[verifier::external_body]
    fn to_string_pretty_call(&self) -> (r: Option<String>)
        ensures
            r is Some <==> json_pretty(self@) is Some,
            r matches Some(s) ==> json_pretty(self@) == Some(s@),
    {
        serde_json::to_string_pretty(&self.value).ok()
    }

    /// `serde_json::Value::get(key).is_some()` on the value.
    #[verifier::external_body]
    fn get_call(&self, key: &str) -> (r: bool)
        ensures
            r == json_has_key(self@, key@),
    {
        self.value.get(key).is_some()
    }

    /// `serde_json::Value::get(key)` then `as_str` on the value.
    #[verifier::external_body]
    fn get_str_call(&self, key: &str) -> (r: Option<String>)
        ensures
            opt_string_view(r) == json_str_field(self@, key@),
    {
        match self.value.get(key) {
            Some(v) => match v.as_str() {
                Some(t) => Some(t.to_string()),
                None => None,
            },
            None => None,
        }
    }

    /// The string the value holds at `key`, if it is an object with a string
    /// there.
    pub fn str_field(&self, key: &str) -> (r: Option<String>)
        ensures
            opt_string_view(r) == json_str_field(self@, key@),
    {
        self.get_str_call(key)
    }

    /// The value printed compactly, if it can be printed.
    pub fn to_compact(&self) -> (r: Option<String>)
        ensures
            r is Some <==> json_compact(self@) is Some,
            r matches Some(s) ==> json_compact(self@) == Some(s@),
    {
        self.to_string_call()
    }

    /// The value pretty-printed, if it can be printed.
    pub fn to_pretty(&self) -> (r: Option<String>)
        ensures
            r is Some <==> json_pretty(self@) is Some,
            r matches Some(s) ==> json_pretty(self@) == Some(s@),
    {
        self.to_string_pretty_call()
    }

    /// Whether the value is an object with the key.
    pub fn has_key(&self, key: &str) -> (r: bool)
        ensures
            r == json_has_key(self@, key@),
    {
        self.get_call(key)
    }

    /// The text the value was parsed from.
    pub fn text(&self) -> (r: &str)
        ensures
            r@ == self@,
    {
        self.source.as_str()
    }
}

/// The view of an optional string.
pub open spec fn opt_string_view(o: Option<String>) -> Option<Seq<char>> {
    match o {
        Some(s) => Some(s@),
        None => None,
    }
}

} // verus!
