//! Checks a task tree read from disk must pass: its JSON Schema and the
//! tree invariants.

use vstd::prelude::*;

use crate::logic::invariants::{invariant_errors, validate_invariants};
use crate::text::{join, join_strings};
use crate::tree::{strings_view, Node};

verus! {

/// What `jsonschema` reports for the JSON text `instance` against the JSON
/// Schema text `schema`: the messages of its errors, in its order, or the
/// message when a text is not JSON or the schema is not a valid schema.
pub uninterp spec fn schema_report(schema: Seq<char>, instance: Seq<char>) -> Result<Seq<Seq<char>>, Seq<char>>;

/// Validates `instance_text` against `schema_text` with `jsonschema`
/// (`validator_for`, then `iter_errors`), both parsed by `serde_json`.
///
/// Trusted: the result is `schema_report` of the two texts, with each error
/// message as its `Display` text.
#[verifier::external_body]
pub fn schema_errors(schema_text: &str, instance_text: &str) -> (r: Result<Vec<String>, String>)
    ensures
        match r {
            Ok(v) => schema_report(schema_text@, instance_text@) == Ok::<Seq<Seq<char>>, Seq<char>>(strings_view(v@)),
            Err(e) => schema_report(schema_text@, instance_text@) == Err::<Seq<Seq<char>>, Seq<char>>(e@),
        },
{
    let schema: serde_json::Value = serde_json::from_str(schema_text).map_err(|e| e.to_string())?;
    let instance: serde_json::Value = serde_json::from_str(instance_text).map_err(|e| e.to_string())?;
    let validator = jsonschema::validator_for(&schema).map_err(|e| e.to_string())?;
    Ok(validator.iter_errors(&instance).map(|e| e.to_string()).collect())
}

/// The outcome of checking a tree's JSON text against the tree schema.
pub open spec fn tree_schema_outcome(schema: Seq<char>, tree: Seq<char>) -> Result<(), Seq<char>> {
    match schema_report(schema, tree) {
        Err(e) => Err("invalid schema: "@ + e),
        Ok(msgs) => if msgs.len() == 0 {
            Ok(())
        } else {
            Err("tree schema validation failed: "@ + join(msgs, "; "@))
        },
    }
}

/// Checks the tree's JSON text against the schema `schema.json` holds: an
/// invalid schema, or a tree that breaks it (every message, joined by
/// `; `), is an error.
pub fn check_tree_schema(schema_text: &str, tree_text: &str) -> (r: Result<(), String>)
    ensures
        match (r, tree_schema_outcome(schema_text@, tree_text@)) {
            (Ok(_), Ok(_)) => true,
            (Err(m), Err(e)) => m@ == e,
            _ => false,
        },
{
    match schema_errors(schema_text, tree_text) {
        Err(e) => {
            let mut m = String::from_str("invalid schema: ");
            m.append(e.as_str());
            Err(m)
        },
        Ok(msgs) => {
            if msgs.len() == 0 {
                return Ok(());
            }
            let mut m = String::from_str("tree schema validation failed: ");
            let joined = join_strings(&msgs, "; ");
            m.append(joined.as_str());
            Err(m)
        },
    }
}

/// Checks the tree invariants: every error, joined by `; `, fails the tree.
pub fn check_tree_invariants(tree: &Node) -> (r: Result<(), String>)
    ensures
        r is Ok <==> invariant_errors(tree@, tree@.id, Seq::empty()).len() == 0,
        r matches Err(m) ==> m@ == "tree invariants failed: "@ + join(invariant_errors(tree@, tree@.id, Seq::empty()), "; "@),
{
    let errors = validate_invariants(tree);
    if errors.len() == 0 {
        return Ok(());
    }
    let mut m = String::from_str("tree invariants failed: ");
    let joined = join_strings(&errors, "; ");
    m.append(joined.as_str());
    Err(m)
}

} // verus!
