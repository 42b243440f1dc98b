//! The generic document tree.
//!
//! The configuration is written in TOML. The off-the-shelf parser turns the
//! text into a tree of tables, arrays and scalars; this module holds that
//! tree as plain values, so that decoding can be specified and verified over
//! it. Scalars the decoders never read (floats, booleans, datetimes) are
//! collapsed into [`DocValue::Other`].

use vstd::prelude::*;

verus! {

/// A value of the parsed document tree.
///
/// A table is a sequence of key/value entries; lookup finds the first entry
/// with the requested key. The parser never produces two entries with the
/// same key in one table, but the type does not require it.
#[derive(Debug)]
pub enum DocValue {
    Str(String),
    Int(i64),
    Arr(Vec<DocValue>),
    Table(Vec<(String, DocValue)>),
    Other,
}

/// The value under `key` in a table's entries: the first entry whose key
/// matches, if any.
pub open spec fn spec_table_get(entries: Seq<(String, DocValue)>, key: Seq<char>) -> Option<
    DocValue,
>
    decreases entries.len(),
{
    if entries.len() == 0 {
        None
    } else if entries[0].0@ == key {
        Some(entries[0].1)
    } else {
        spec_table_get(entries.skip(1), key)
    }
}

/// Looks `key` up among a table's entries.
pub fn table_get<'a>(entries: &'a Vec<(String, DocValue)>, key: &String) -> (r: Option<
    &'a DocValue,
>)
    ensures
        match r {
            Some(v) => spec_table_get(entries@, key@) == Some(*v),
            None => spec_table_get(entries@, key@) is None,
        },
{
    let n = entries.len();
    proof {
        assert(entries@.skip(0) =~= entries@);
    }
    for i in 0..n
        invariant
            n == entries.len(),
            spec_table_get(entries@, key@) == spec_table_get(entries@.skip(i as int), key@),
    {
        proof {
            assert(entries@.skip(i as int)[0] == entries@[i as int]);
        }
        if entries[i].0.eq(key) {
            proof {
                assert(spec_table_get(entries@.skip(i as int), key@) == Some(
                    entries@[i as int].1,
                ));
            }
            return Some(&entries[i].1);
        }
        proof {
            assert(entries@.skip(i as int).skip(1) =~= entries@.skip(i + 1));
            assert(spec_table_get(entries@.skip(i as int), key@) == spec_table_get(
                entries@.skip(i + 1),
                key@,
            ));
        }
    }
    proof {
        assert(entries@.skip(n as int).len() == 0);
    }
    None
}

/// What the TOML parser returns for a given text: the document tree when the
/// text is well-formed TOML, and nothing otherwise. The TOML grammar is out
/// of scope here, so the function is left uninterpreted; parsing is a
/// deterministic function of the text alone.
pub uninterp spec fn spec_parse_toml(text: Seq<char>) -> Option<DocValue>;

/// The parsed document tree of `text`, or `None` when `text` is not
/// well-formed TOML. A well-formed document is always a table.
pub fn parse(text: &str) -> (r: Option<DocValue>)
    ensures
        r == spec_parse_toml(text@),
        r matches Some(d) ==> d is Table,
{
    parse_toml_text(text)
}

/// Relies on toml's `FromStr` for `toml::Table` (`str::parse`): the parse is
/// a deterministic function of the text and yields a table on success.
#[verifier::external_body]
fn parse_toml_text(text: &str) -> (r: Option<DocValue>)
    ensures
        r == spec_parse_toml(text@),
        r matches Some(d) ==> d is Table,
{
    match text.parse::<toml::Table>() {
        Ok(t) => Some(doc_of_toml(&toml::Value::Table(t))),
        Err(_) => None,
    }
}

/// Relies on the variants of `toml::Value`: each arm moves the payload into
/// the library's document tree, entry by entry; scalar kinds the decoders
/// never read become `DocValue::Other`.
#[verifier::external_body]
fn doc_of_toml(v: &toml::Value) -> (r: DocValue) {
    match v {
        toml::Value::String(s) => DocValue::Str(s.clone()),
        toml::Value::Integer(i) => DocValue::Int(*i),
        toml::Value::Array(a) => DocValue::Arr(a.iter().map(doc_of_toml).collect()),
        toml::Value::Table(t) => DocValue::Table(
            t.iter().map(|(k, x)| (k.clone(), doc_of_toml(x))).collect(),
        ),
        _ => DocValue::Other,
    }
}

#[verifier::external_type_specification]
#[verifier::external_body]
pub struct ExTomlValue(toml::Value);

} // verus!
