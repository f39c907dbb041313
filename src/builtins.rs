//! The functions that scripts can call, each under its name: running a
//! program, reading a file, reformatting JSON, turning JSON into a table and
//! encoding text as Shift_JIS.
use vstd::prelude::*;
use crate::error::Error;

verus! {

/// Whether serde_json reads `s` as one JSON value.
pub uninterp spec fn json_parses(s: Seq<char>) -> bool;

/// The bytes that encoding_rs gives for `s` in Shift_JIS.
pub uninterp spec fn shift_jis_of(s: Seq<char>) -> Seq<u8>;

/// A parsed JSON value, held opaquely.
#[verifier::external_type_specification]
#[verifier::external_body]
pub struct ExJsonValue(serde_json::Value);

/// Relies on `serde_json::from_str`: a value exactly when `s` is JSON.
#[verifier::external_body]
fn parse_json(s: &str) -> (r: Option<serde_json::Value>)
    ensures
        r is Some == json_parses(s@),
{
    serde_json::from_str(s).ok()
}

/// Relies on `serde_json::to_string_pretty`, which does not fail on a
/// `Value`: the value written with indentation.
#[verifier::external_body]
fn pretty_json(v: &serde_json::Value) -> String {
    serde_json::to_string_pretty(v).unwrap()
}

/// Relies on `serde_json::to_string`, which does not fail on a `Value`: the
/// value written without whitespace.
#[verifier::external_body]
fn compact_json(v: &serde_json::Value) -> String {
    serde_json::to_string(v).unwrap()
}

/// Relies on encoding_rs's `SHIFT_JIS.encode`: the Shift_JIS bytes of `s`
/// (characters it cannot encode become numeric character references).
#[verifier::external_body]
fn shift_jis_bytes(s: &str) -> (r: Vec<u8>)
    ensures
        r@ == shift_jis_of(s@),
{
    encoding_rs::SHIFT_JIS.encode(s).0.into_owned()
}

/// `exec(program, args)`: runs a program and gives its exit code and output.
pub struct Exec;

impl Exec {
    pub fn get_name(&self) -> (r: &'static str)
        ensures
            r@ == "exec"@,
    {
        "exec"
    }
}

/// What a program that `exec` ran gave.
#[derive(Debug, Clone)]
pub struct ExecResult {
    pub code: i32,
    pub stdout: String,
    pub stderr: String,
}

/// `include(path)`: the contents of a file.
pub struct Include;

impl Include {
    pub fn get_name(&self) -> (r: &'static str)
        ensures
            r@ == "include"@,
    {
        "include"
    }
}

/// `prettier_json(json)`: JSON written with indentation.
pub struct PrettierJson;

impl PrettierJson {
    pub fn get_name(&self) -> (r: &'static str)
        ensures
            r@ == "prettier_json"@,
    {
        "prettier_json"
    }

    /// `json` rewritten with indentation; an error where it is not JSON.
    pub fn apply(&self, json: &str) -> (r: Result<String, Error>)
        ensures
            r is Ok == json_parses(json@),
    {
        match parse_json(json) {
            Some(v) => Ok(pretty_json(&v)),
            None => Err(Error::new("invalid JSON")),
        }
    }
}

/// `minify_json(json)`: JSON written without whitespace.
pub struct MinifyJson;

impl MinifyJson {
    pub fn get_name(&self) -> (r: &'static str)
        ensures
            r@ == "minify_json"@,
    {
        "minify_json"
    }

    /// `json` rewritten without whitespace; an error where it is not JSON.
    pub fn apply(&self, json: &str) -> (r: Result<String, Error>)
        ensures
            r is Ok == json_parses(json@),
    {
        match parse_json(json) {
            Some(v) => Ok(compact_json(&v)),
            None => Err(Error::new("invalid JSON")),
        }
    }
}

/// `json_to_table(json)`: a JSON value as a script table.
pub struct JsonToTable;

impl JsonToTable {
    pub fn get_name(&self) -> (r: &'static str)
        ensures
            r@ == "json_to_table"@,
    {
        "json_to_table"
    }
}

/// `s(text)`: text encoded as Shift_JIS.
pub struct ShiftJis;

impl ShiftJis {
    pub fn get_name(&self) -> (r: &'static str)
        ensures
            r@ == "s"@,
    {
        "s"
    }

    /// The Shift_JIS bytes of `text`.
    pub fn apply(&self, text: &str) -> (r: Vec<u8>)
        ensures
            r@ == shift_jis_of(text@),
    {
        shift_jis_bytes(text)
    }
}

} // verus!
