//! Configuration: the root manifest's workspace patterns, the workspace
//! root, and the registry address.

use vstd::prelude::*;

use crate::errors::JmError;
use crate::strutil::{copy_str, push_char};

verus! {

/// The `workspaces` array of a root manifest, when the text parses as a
/// JSON object with one made of strings.
pub uninterp spec fn manifest_workspaces(s: Seq<char>) -> Option<Seq<Seq<char>>>;

/// Relies on serde_json: parses the root manifest and takes its
/// `workspaces` array of strings; any other shape is nothing.
#[verifier::external_body]
fn parse_workspaces_json(s: &str) -> (r: Option<Vec<String>>)
    ensures
        r.deep_view() == manifest_workspaces(s@),
{
    let value: serde_json::Value = serde_json::from_str(s).ok()?;
    let entries = value.get("workspaces")?.as_array()?;
    let mut out = Vec::new();
    for entry in entries {
        out.push(entry.as_str()?.to_string());
    }
    Some(out)
}

/// The message given for a manifest without a usable `workspaces` array.
pub open spec fn bad_manifest_msg() -> Seq<char> {
    "Failed to parse manifest file, please make sure it is a valid JSON and 'workspaces' array exists"@
}

#[derive(Debug)]
pub struct Config {
    pub root_path: String,
    pub patterns: Vec<String>,
    pub registry: String,
}

impl Config {
    /// Reads the workspace patterns out of the root manifest's text.
    pub fn new(root_path: String, manifest_file_content: &str, registry: &str) -> (r: Result<
        Config,
        JmError,
    >)
        ensures
            match r {
                Ok(c) => {
                    &&& manifest_workspaces(manifest_file_content@) == Some(c.patterns.deep_view())
                    &&& c.root_path@ == root_path@
                    &&& c.registry@ == registry@
                },
                Err(e) => manifest_workspaces(manifest_file_content@) is None && e@
                    == bad_manifest_msg(),
            },
    {
        match parse_workspaces_json(manifest_file_content) {
            Some(patterns) => Ok(Config { root_path, patterns, registry: copy_str(registry) }),
            None => Err(
                JmError::new(
                    copy_str(
                        "Failed to parse manifest file, please make sure it is a valid JSON and 'workspaces' array exists",
                    ),
                ),
            ),
        }
    }
}

/// A string as a JSON string literal (plain names and patterns only; no
/// escaping is attempted).
pub open spec fn quoted(w: Seq<char>) -> Seq<char> {
    seq!['"'] + w + seq!['"']
}

/// JSON string literals joined with commas.
pub open spec fn quoted_list(ws: Seq<Seq<char>>) -> Seq<char>
    decreases ws.len(),
{
    if ws.len() == 0 {
        Seq::empty()
    } else if ws.len() == 1 {
        quoted(ws[0])
    } else {
        quoted_list(ws.drop_last()) + ", "@ + quoted(ws.last())
    }
}

/// The text of a root manifest carrying the given workspace patterns.
pub open spec fn manifest_text(ws: Seq<Seq<char>>) -> Seq<char> {
    "{ \"workspaces\": ["@ + quoted_list(ws) + "] }"@
}

/// Writes a root manifest with the given workspace patterns.
pub fn with_manifest_file_content(workspaces: Vec<&str>) -> (r: String)
    ensures
        r@ == manifest_text(workspaces.deep_view()),
{
    let ghost ws = workspaces.deep_view();
    let mut list = String::new();
    let mut i: usize = 0;
    while i < workspaces.len()
        invariant
            i <= workspaces.len(),
            ws == workspaces.deep_view(),
            ws.len() == workspaces@.len(),
            list@ == quoted_list(ws.subrange(0, i as int)),
        decreases workspaces.len() - i,
    {
        if i > 0 {
            list.append(", ");
        }
        push_char(&mut list, '"');
        list.append(workspaces[i]);
        push_char(&mut list, '"');
        proof {
            let prefix = ws.subrange(0, i + 1 as int);
            assert(prefix.drop_last() =~= ws.subrange(0, i as int));
            assert(prefix.last() == ws[i as int]);
            assert(ws[i as int] == workspaces@[i as int]@);
            assert(list@ =~= quoted_list(prefix));
        }
        i = i + 1;
    }
    proof {
        assert(ws.subrange(0, workspaces@.len() as int) =~= ws);
    }
    let mut out = copy_str("{ \"workspaces\": [");
    out.append(list.as_str());
    out.append("] }");
    proof {
        assert(out@ =~= manifest_text(ws));
    }
    out
}

/// JSON object entries `"name": "value"` joined with commas.
pub open spec fn quoted_entries(es: Seq<(Seq<char>, Seq<char>)>) -> Seq<char>
    decreases es.len(),
{
    if es.len() == 0 {
        Seq::empty()
    } else if es.len() == 1 {
        quoted(es[0].0) + ": "@ + quoted(es[0].1)
    } else {
        quoted_entries(es.drop_last()) + ", "@ + quoted(es.last().0) + ": "@ + quoted(es.last().1)
    }
}

/// The text of a member manifest with the given name, version and
/// dependency table; an absent table is written as `null`.
pub open spec fn package_json_text(
    name: Seq<char>,
    version: Seq<char>,
    dependencies: Option<Seq<(Seq<char>, Seq<char>)>>,
) -> Seq<char> {
    "{ \"name\": "@ + quoted(name) + ", \"version\": "@ + quoted(version)
        + ", \"dependencies\": "@ + (match dependencies {
        None => "null"@,
        Some(es) => "{"@ + quoted_entries(es) + "}"@,
    }) + " }"@
}

/// Writes a member manifest with the given name, version and dependencies.
pub fn with_package_json_file_content(
    name: &str,
    version: &str,
    dependencies: Option<Vec<(&str, &str)>>,
) -> (r: String)
    ensures
        r@ == package_json_text(
            name@,
            version@,
            match dependencies {
                None => None,
                Some(es) => Some(es.deep_view()),
            },
        ),
{
    let mut out = copy_str("{ \"name\": ");
    push_char(&mut out, '"');
    out.append(name);
    push_char(&mut out, '"');
    out.append(", \"version\": ");
    push_char(&mut out, '"');
    out.append(version);
    push_char(&mut out, '"');
    out.append(", \"dependencies\": ");
    match &dependencies {
        None => {
            out.append("null");
        },
        Some(es) => {
            let ghost esv = es.deep_view();
            out.append("{");
            let mut i: usize = 0;
            let mut list = String::new();
            while i < es.len()
                invariant
                    i <= es.len(),
                    esv == es.deep_view(),
                    esv.len() == es@.len(),
                    list@ == quoted_entries(esv.subrange(0, i as int)),
                decreases es.len() - i,
            {
                if i > 0 {
                    list.append(", ");
                }
                push_char(&mut list, '"');
                list.append(es[i].0);
                push_char(&mut list, '"');
                list.append(": ");
                push_char(&mut list, '"');
                list.append(es[i].1);
                push_char(&mut list, '"');
                proof {
                    let prefix = esv.subrange(0, i + 1 as int);
                    assert(prefix.drop_last() =~= esv.subrange(0, i as int));
                    assert(prefix.last() == esv[i as int]);
                    assert(esv[i as int] == (es@[i as int].0@, es@[i as int].1@));
                    assert(list@ =~= quoted_entries(prefix));
                }
                i = i + 1;
            }
            proof {
                assert(esv.subrange(0, es@.len() as int) =~= esv);
            }
            out.append(list.as_str());
            out.append("}");
        },
    }
    out.append(" }");
    proof {
        match dependencies {
            None => {
                assert(out@ =~= package_json_text(name@, version@, None));
            },
            Some(es) => {
                assert(out@ =~= package_json_text(name@, version@, Some(es.deep_view())));
            },
        }
    }
    out
}

} // verus!
