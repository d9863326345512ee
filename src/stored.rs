//! The stored text forms of a command's argument list and of environment
//! variables (JSON, through serde_json), and the lenient reading of them:
//! text that does not parse reads as no value, so that a record with one
//! damaged field stays readable and can be repaired.
use vstd::prelude::*;
use crate::models::EnvVars;

verus! {

/// The JSON text serde_json writes for a list of strings.
pub uninterp spec fn json_of_strings(v: Seq<Seq<char>>) -> Seq<char>;

/// The list of strings serde_json reads from a text, if it reads one.
pub uninterp spec fn strings_of_json(t: Seq<char>) -> Option<Seq<Seq<char>>>;

/// The JSON object text serde_json writes for a map from strings to strings.
pub uninterp spec fn json_of_vars(v: Seq<(Seq<char>, Seq<char>)>) -> Seq<char>;

/// The pairs, in key order, of the JSON object of strings that serde_json
/// reads from a text, if it reads one.
pub uninterp spec fn vars_of_json(t: Seq<char>) -> Option<Seq<(Seq<char>, Seq<char>)>>;

pub open spec fn texts(v: Seq<String>) -> Seq<Seq<char>> {
    v.map_values(|s: String| s@)
}

pub open spec fn pair_texts(v: Seq<(String, String)>) -> Seq<(Seq<char>, Seq<char>)> {
    v.map_values(|p: (String, String)| (p.0@, p.1@))
}

/// Relies on serde_json::to_string on a `Vec<String>`: a JSON array of the
/// strings. Its documentation names the only failures (a `Serialize` impl
/// that fails, a map with non-string keys), and neither can occur here.
#[verifier::external_body]
fn strings_to_json(v: &Vec<String>) -> (r: String)
    ensures
        r@ == json_of_strings(texts(v@)),
{
    match serde_json::to_string(v) {
        Ok(s) => s,
        Err(_) => String::new(),
    }
}

/// Relies on serde_json::from_str into a `Vec<String>`.
#[verifier::external_body]
fn json_to_strings(t: &str) -> (r: Option<Vec<String>>)
    ensures
        r is Some <==> strings_of_json(t@) is Some,
        r matches Some(v) ==> texts(v@) == strings_of_json(t@).unwrap(),
{
    serde_json::from_str::<Vec<String>>(t).ok()
}

/// Relies on serde_json::to_string on a `BTreeMap<String, String>` built
/// from the pairs: a JSON object, keys in order. It cannot fail, as above.
#[verifier::external_body]
fn vars_to_json(v: &EnvVars) -> (r: String)
    ensures
        r@ == json_of_vars(pair_texts(v@)),
{
    let map: std::collections::BTreeMap<&String, &String> = v.iter().map(|p| (&p.0, &p.1)).collect();
    match serde_json::to_string(&map) {
        Ok(s) => s,
        Err(_) => String::new(),
    }
}

/// Relies on serde_json::from_str into a `BTreeMap<String, String>`, read
/// out in key order.
#[verifier::external_body]
fn json_to_vars(t: &str) -> (r: Option<EnvVars>)
    ensures
        r is Some <==> vars_of_json(t@) is Some,
        r matches Some(v) ==> pair_texts(v@) == vars_of_json(t@).unwrap(),
{
    serde_json::from_str::<std::collections::BTreeMap<String, String>>(t).ok().map(
        |m| m.into_iter().collect(),
    )
}

/// The stored text of an argument list.
pub fn encode_arguments(arguments: &Vec<String>) -> (r: String)
    ensures
        r@ == json_of_strings(texts(arguments@)),
{
    strings_to_json(arguments)
}

/// Reads a stored argument list; text that does not parse reads as no arguments.
pub fn decode_arguments(text: &str) -> (r: Vec<String>)
    ensures
        texts(r@) == match strings_of_json(text@) {
            Some(v) => v,
            None => Seq::empty(),
        },
{
    match json_to_strings(text) {
        Some(v) => v,
        None => {
            let empty: Vec<String> = Vec::new();
            assert(texts(empty@) =~= Seq::<Seq<char>>::empty());
            empty
        },
    }
}

/// The stored text of environment variables, if there are any.
pub fn encode_env_vars(env_vars: &Option<EnvVars>) -> (r: Option<String>)
    ensures
        r is Some <==> env_vars is Some,
        r matches Some(t) ==> t@ == json_of_vars(pair_texts(env_vars.unwrap()@)),
{
    match env_vars {
        Some(v) => Some(vars_to_json(v)),
        None => None,
    }
}

/// Reads stored environment variables; text that does not parse reads as none.
pub fn decode_env_vars(text: Option<String>) -> (r: Option<EnvVars>)
    ensures
        text is None ==> r is None,
        text is Some ==> (r is Some <==> vars_of_json(text.unwrap()@) is Some),
        text is Some && r is Some ==> pair_texts(r.unwrap()@) == vars_of_json(text.unwrap()@).unwrap(),
{
    match text {
        Some(t) => json_to_vars(t.as_str()),
        None => None,
    }
}

} // verus!
