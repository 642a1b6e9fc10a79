use vstd::prelude::*;
use crate::errors::EngineError;

verus! {

/// A ranking criterion.  The closed set of stages the ranking pipeline may
/// run; the order in which a schema lists them is the order in which they are
/// applied.
#[derive(Clone, Copy, Debug, PartialEq, Eq, Structural)]
pub enum Criterion {
    Words,
    Typo,
    Proximity,
    Attribute,
    Sort,
    Exactness,
}

/// True when `v[i]@ == name` for some index `i`.
pub open spec fn has_name(v: Seq<String>, name: Seq<char>) -> bool {
    exists|i: int| 0 <= i < v.len() && v[i]@ == name
}

/// True when the views of the strings in `v` are pairwise distinct.
pub open spec fn distinct_names(v: Seq<String>) -> bool {
    forall|i: int, j: int| 0 <= i < j < v.len() ==> v[i]@ != v[j]@
}

/// The index settings: which fields are tokenized and searchable (their order
/// is the Attribute tie-break priority), which fields feed the facet index,
/// and the ordered ranking criteria.  Written once at index creation.
pub struct Schema {
    pub searchable: Vec<String>,
    pub filterable: Vec<String>,
    pub criteria: Vec<Criterion>,
}

impl Schema {
    /// Validity of a schema: no duplicated searchable field name.
    pub open spec fn wf(self) -> bool {
        distinct_names(self.searchable@)
    }
}

/// String equality on views, usable from verified code.
pub fn string_eq(a: &String, b: &String) -> (r: bool)
    ensures
        r == (a@ == b@),
{
    *a == *b
}

/// Returns the first index of `name` in `v`, if any.
pub fn find_name(v: &Vec<String>, name: &String) -> (r: Option<usize>)
    ensures
        match r {
            Some(i) => i < v@.len() && v@[i as int]@ == name@
                && forall|j: int| 0 <= j < i ==> v@[j]@ != name@,
            None => !has_name(v@, name@),
        },
{
    let mut i: usize = 0;
    while i < v.len()
        invariant
            i <= v@.len(),
            forall|j: int| 0 <= j < i ==> v@[j]@ != name@,
        decreases v@.len() - i,
    {
        if string_eq(&v[i], name) {
            return Some(i);
        }
        i += 1;
    }
    None
}

/// Builds a schema, rejecting duplicate searchable field names.
pub fn schema_new(searchable: Vec<String>, filterable: Vec<String>, criteria: Vec<Criterion>)
    -> (r: Result<Schema, EngineError>)
    ensures
        r is Ok <==> distinct_names(searchable@),
        r is Ok ==> ({
            let s = r->Ok_0;
            s.searchable@ == searchable@ && s.filterable@ == filterable@
                && s.criteria@ == criteria@ && s.wf()
        }),
        r is Err ==> r->Err_0 == EngineError::ConfigError,
{
    let mut i: usize = 0;
    while i < searchable.len()
        invariant
            i <= searchable@.len(),
            forall|p: int, q: int| 0 <= p < q < i ==> searchable@[p]@ != searchable@[q]@,
        decreases searchable@.len() - i,
    {
        let mut j: usize = 0;
        while j < i
            invariant
                j <= i < searchable@.len(),
                forall|p: int, q: int| 0 <= p < q < i ==> searchable@[p]@ != searchable@[q]@,
                forall|p: int| 0 <= p < j ==> searchable@[p]@ != searchable@[i as int]@,
            decreases i - j,
        {
            if string_eq(&searchable[j], &searchable[i]) {
                return Err(EngineError::ConfigError);
            }
            j += 1;
        }
        i += 1;
    }
    Ok(Schema { searchable, filterable, criteria })
}

} // verus!
