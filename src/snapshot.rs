//! Feed snapshots: their JSON form, and the decision whether the feed changed.
use vstd::prelude::*;
use crate::chunks::views;

verus! {

/// The array of strings that a JSON text denotes, if it denotes one.
pub uninterp spec fn json_string_array(text: Seq<char>) -> Option<Seq<Seq<char>>>;

/// The JSON text of an array of strings.
pub uninterp spec fn json_of_strings(items: Seq<Seq<char>>) -> Seq<char>;

/// Relies on `serde_json::from_str`, read as a `Vec<String>`: the text is
/// parsed as a JSON array of strings, and the outcome depends on the text
/// alone.
#[verifier::external_body]
fn parse_string_array(text: &str) -> (r: Option<Vec<String>>)
    ensures
        r is Some <==> json_string_array(text@) is Some,
        r matches Some(v) ==> views(v@) == json_string_array(text@)->Some_0,
{
    serde_json::from_str::<Vec<String>>(text).ok()
}

/// Relies on `serde_json::to_string` on a `Vec<String>`: the JSON array of
/// the strings, which depends on them alone. It fails only where a
/// `Serialize` impl fails or a map has keys that are not strings, neither of
/// which a list of strings has, and `serde_json::from_str` reads the text
/// back as the same strings.
#[verifier::external_body]
fn write_string_array(items: &Vec<String>) -> (r: Option<String>)
    ensures
        r is Some,
        r matches Some(t) ==> t@ == json_of_strings(views(items@)),
        r matches Some(t) ==> json_string_array(t@) == Some(views(items@)),
{
    serde_json::to_string(items).ok()
}

/// Whether the feed changed between a stored snapshot and the current one.
/// Without a stored snapshot there is only a baseline to set, no change.
pub open spec fn snapshot_changed(previous: Option<Seq<Seq<char>>>, current: Seq<Seq<char>>) -> bool {
    previous matches Some(p) && p != current
}

/// Reads a persisted snapshot: the headlines of a JSON array of strings.
pub fn decode_snapshot(content: &str) -> (r: Option<Vec<String>>)
    ensures
        r is Some <==> json_string_array(content@) is Some,
        r matches Some(v) ==> views(v@) == json_string_array(content@)->Some_0,
{
    parse_string_array(content)
}

/// The persisted form of a snapshot: its headlines as a JSON array, which
/// reads back as the same headlines.
pub fn encode_snapshot(headlines: &Vec<String>) -> (r: String)
    ensures
        r@ == json_of_strings(views(headlines@)),
        json_string_array(r@) == Some(views(headlines@)),
{
    match write_string_array(headlines) {
        Some(text) => text,
        None => String::new(),
    }
}

/// Whether two snapshots hold the same headlines in the same order.
pub fn same_snapshot(a: &Vec<String>, b: &Vec<String>) -> (r: bool)
    ensures
        r == (views(a@) == views(b@)),
{
    if a.len() != b.len() {
        assert(views(a@).len() != views(b@).len());
        return false;
    }
    let mut i: usize = 0;
    while i < a.len()
        invariant
            a@.len() == b@.len(),
            i <= a@.len(),
            forall|k: int| 0 <= k < i ==> a@[k]@ == b@[k]@,
        decreases a@.len() - i,
    {
        if a[i] != b[i] {
            assert(views(a@)[i as int] != views(b@)[i as int]);
            return false;
        }
        i += 1;
    }
    assert(views(a@) =~= views(b@));
    true
}

/// Whether the feed changed: true when a stored snapshot exists and differs
/// from the current one.
pub fn has_changed(previous: Option<&Vec<String>>, current: &Vec<String>) -> (r: bool)
    ensures
        r == snapshot_changed(
            match previous {
                Some(p) => Some(views(p@)),
                None => None,
            },
            views(current@),
        ),
{
    match previous {
        Some(p) => !same_snapshot(p, current),
        None => false,
    }
}

/// Compares two persisted snapshots given as JSON text: `Ok(true)` when they
/// hold the same headlines in the same order, `Ok(false)` when they differ,
/// and an error that names the first text that is not a JSON array of
/// strings.
pub fn compare_json_files(content1: &str, content2: &str) -> (r: Result<bool, String>)
    ensures
        r is Err <==> (json_string_array(content1@) is None || json_string_array(content2@) is None),
        json_string_array(content1@) is None
            ==> (r matches Err(m) && m@ == "Failed to parse JSON from the first snapshot"@),
        json_string_array(content1@) is Some && json_string_array(content2@) is None
            ==> (r matches Err(m) && m@ == "Failed to parse JSON from the second snapshot"@),
        r matches Ok(same) ==> same == (json_string_array(content1@) == json_string_array(content2@)),
{
    let first = match parse_string_array(content1) {
        Some(v) => v,
        None => return Err("Failed to parse JSON from the first snapshot".to_owned()),
    };
    let second = match parse_string_array(content2) {
        Some(v) => v,
        None => return Err("Failed to parse JSON from the second snapshot".to_owned()),
    };
    Ok(same_snapshot(&first, &second))
}

/// A stored snapshot compared with itself shows no change; changing one
/// headline, or the number of headlines, shows a change.
pub proof fn lemma_diff_correct(s: Seq<Seq<char>>, k: int, h: Seq<char>, t: Seq<Seq<char>>)
    ensures
        !snapshot_changed(Some(s), s),
        0 <= k < s.len() && h != s[k] ==> snapshot_changed(Some(s), s.update(k, h)),
        t.len() != s.len() ==> snapshot_changed(Some(s), t),
{
    if 0 <= k < s.len() && h != s[k] {
        assert(s.update(k, h)[k] != s[k]);
    }
}

} // verus!
