use vstd::prelude::*;

verus! {

/// What serde_json decodes a document text into: `None` for malformed input,
/// otherwise the object's fields in order, each value rendered as text
/// (string values as their contents, other values as their JSON encoding).
/// The outcome is a function of the text alone.
pub uninterp spec fn json_fields_of(s: Seq<char>) -> Option<Seq<(Seq<char>, Seq<char>)>>;

/// The views of decoded (name, value) pairs.
pub open spec fn pairs_view(v: Seq<(String, String)>) -> Seq<(Seq<char>, Seq<char>)> {
    v.map_values(|p: (String, String)| (p.0@, p.1@))
}

/// Pairwise-distinct first components.
pub open spec fn distinct_keys(v: Seq<(Seq<char>, Seq<char>)>) -> bool {
    forall|i: int, j: int| 0 <= i < j < v.len() ==> v[i].0 != v[j].0
}

/// First value bound to `name` among the decoded fields, scanning from `i`.
pub open spec fn fields_lookup_from(fs: Seq<(Seq<char>, Seq<char>)>, name: Seq<char>, i: int)
    -> Option<Seq<char>>
    decreases fs.len() - i,
{
    if i < 0 || i >= fs.len() {
        None
    } else if fs[i].0 == name {
        Some(fs[i].1)
    } else {
        fields_lookup_from(fs, name, i + 1)
    }
}

/// The value bound to `name` among the decoded fields, if any.
pub open spec fn fields_lookup(fs: Seq<(Seq<char>, Seq<char>)>, name: Seq<char>) -> Option<
    Seq<char>,
> {
    fields_lookup_from(fs, name, 0)
}

/// What one document text contributes to a batch: its fields and its
/// external id, read from the designated identifier field `id`.  `None` for
/// a malformed document or one with no identifier.
pub open spec fn doc_parse(s: Seq<char>) -> Option<(Seq<(Seq<char>, Seq<char>)>, Seq<char>)> {
    match json_fields_of(s) {
        None => None,
        Some(fs) => match fields_lookup(fs, "id"@) {
            None => None,
            Some(x) => Some((fs, x)),
        },
    }
}

/// Every document of the batch is well-formed.
pub open spec fn batch_ok(adds: Seq<String>) -> bool {
    forall|i: int| 0 <= i < adds.len() ==> (#[trigger] doc_parse(adds[i]@)) is Some
}

/// Finds the entry of field `name` among decoded fields.
pub fn fields_find(fields: &Vec<(String, String)>, name: &String) -> (r: Option<usize>)
    ensures
        match r {
            Some(j) => j < fields@.len() && fields@[j as int].0@ == name@ && fields_lookup(
                pairs_view(fields@),
                name@,
            ) == Some(fields@[j as int].1@),
            None => fields_lookup(pairs_view(fields@), name@) is None,
        },
{
    let mut j: usize = 0;
    while j < fields.len()
        invariant
            j <= fields@.len(),
            fields_lookup(pairs_view(fields@), name@) == fields_lookup_from(
                pairs_view(fields@),
                name@,
                j as int,
            ),
        decreases fields@.len() - j,
    {
        if crate::schema::string_eq(&fields[j].0, name) {
            proof {
                assert(pairs_view(fields@)[j as int].0 == fields@[j as int].0@);
            }
            return Some(j);
        }
        proof {
            assert(pairs_view(fields@)[j as int].0 == fields@[j as int].0@);
        }
        j += 1;
    }
    None
}

/// Relies on serde_json: `from_str` decodes one JSON object (an object's keys
/// are unique), and `Value::to_string` renders a value as compact JSON.
#[verifier::external_body]
pub fn parse_json_object(s: &str) -> (r: Option<Vec<(String, String)>>)
    ensures
        r is Some <==> json_fields_of(s@) is Some,
        r is Some ==> pairs_view(r->Some_0@) == json_fields_of(s@)->Some_0,
        r is Some ==> distinct_keys(json_fields_of(s@)->Some_0),
{
    let m: serde_json::Map<String, serde_json::Value> = serde_json::from_str(s).ok()?;
    let mut out = Vec::new();
    for (k, v) in m {
        let text = match v {
            serde_json::Value::String(x) => x,
            other => other.to_string(),
        };
        out.push((k, text));
    }
    Some(out)
}

} // verus!
