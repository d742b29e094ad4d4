//! What the lint reads of a YAML document: the entries of its top-level
//! mapping, each key and value reduced to whether it is text or a mapping.
use vstd::prelude::*;
use serde_yaml::Value;

verus! {

/// A YAML value as the lint reads it.
#[derive(Debug)]
pub enum YamlValue {
    /// A plain string.
    Str(String),
    /// A plain mapping: for each entry, its key and its value where they are strings.
    Mapping(Vec<(Option<String>, Option<String>)>),
    /// Any other value (null, a boolean, a number, a sequence, or a tagged
    /// value), with the string under its tags where it is a tagged string.
    Other(Option<String>),
}

/// A YAML value as mathematical text.
pub enum YamlNode {
    Str(Seq<char>),
    Mapping(Seq<(Option<Seq<char>>, Option<Seq<char>>)>),
    Other(Option<Seq<char>>),
}

/// The text of an optional string.
pub open spec fn opt_text(o: Option<String>) -> Option<Seq<char>> {
    match o {
        Some(s) => Some(s@),
        None => None,
    }
}

/// The entries of a nested mapping as text.
pub open spec fn mapping_view(es: Seq<(Option<String>, Option<String>)>) -> Seq<
    (Option<Seq<char>>, Option<Seq<char>>),
> {
    es.map_values(|e: (Option<String>, Option<String>)| (opt_text(e.0), opt_text(e.1)))
}

impl View for YamlValue {
    type V = YamlNode;

    open spec fn view(&self) -> YamlNode {
        match self {
            YamlValue::Str(s) => YamlNode::Str(s@),
            YamlValue::Mapping(es) => YamlNode::Mapping(mapping_view(es@)),
            YamlValue::Other(o) => YamlNode::Other(opt_text(*o)),
        }
    }
}

/// The entries of a mapping, in document order.
pub open spec fn entries_view(es: Seq<(YamlValue, YamlValue)>) -> Seq<(YamlNode, YamlNode)> {
    es.map_values(|e: (YamlValue, YamlValue)| (e.0@, e.1@))
}

/// What `serde_yaml::from_str::<serde_yaml::Value>` makes of `text`, as this
/// crate reads it: `Ok(Some(entries))` for a plain mapping, `Ok(None)` for any
/// other document, `Err(message)` with the error's message where the text is not YAML.
pub uninterp spec fn yaml_parse(text: Seq<char>) -> Result<Option<Seq<(YamlNode, YamlNode)>>, Seq<char>>;

/// The outcome of parsing YAML as mathematical values.
pub open spec fn yaml_outcome(r: Result<Option<Vec<(YamlValue, YamlValue)>>, String>) -> Result<
    Option<Seq<(YamlNode, YamlNode)>>,
    Seq<char>,
> {
    match r {
        Ok(Some(es)) => Ok(Some(entries_view(es@))),
        Ok(None) => Ok(None),
        Err(e) => Err(e@),
    }
}

/// Calls `serde_yaml::from_str::<serde_yaml::Value>` on `text`. Its contract
/// claims only that the result is `yaml_parse(text)`: the same text always
/// gives the same result. A plain mapping's entries come in document order;
/// a key or value is read with `Value::as_str`, which looks through tags.
#[verifier::external_body]
pub(crate) fn parse_yaml(text: &str) -> (r: Result<Option<Vec<(YamlValue, YamlValue)>>, String>)
    ensures
        yaml_outcome(r) == yaml_parse(text@),
{
    let as_text = |v: &Value| v.as_str().map(str::to_owned);
    let node = |v: &Value| match v {
        Value::String(s) => YamlValue::Str(s.clone()),
        Value::Mapping(m) => YamlValue::Mapping(m.iter().map(|(k, x)| (as_text(k), as_text(x))).collect()),
        _ => YamlValue::Other(as_text(v)),
    };
    match serde_yaml::from_str(text) {
        Ok(Value::Mapping(m)) => Ok(Some(m.iter().map(|(k, v)| (node(k), node(v))).collect())),
        Ok(_) => Ok(None),
        Err(error) => Err(error.to_string()),
    }
}

} // verus!
