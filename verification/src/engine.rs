use vstd::prelude::*;
use crate::errors::EngineError;
use crate::schema::{Schema, Criterion, has_name, distinct_names, schema_new, string_eq};
use crate::text::tokens_of;

verus! {

/// One occurrence of a term: (term, field) -> (document, position within the
/// field).  Positions start at 0 per field per document.
pub struct Posting {
    pub term: Vec<char>,
    pub fid: usize,
    pub doc: usize,
    pub pos: usize,
}

/// One facet membership: (filterable field, value) -> document.
pub struct Facet {
    pub fid: usize,
    pub value: String,
    pub doc: usize,
}

/// The whole engine state: schema, field-id table, document store, inverted
/// index and facet index.  All mutation goes through the mutation pipeline,
/// which keeps the derived indexes exactly consistent with the stored rows.
pub struct Engine {
    pub schema: Schema,
    /// Field-id table: the id of a field name is its index, assigned on first
    /// sight and never reused.
    pub field_names: Vec<String>,
    /// Live documents: external id -> internal id.
    pub ext_ids: Vec<(String, usize)>,
    /// Rows by internal id; `None` is the gap left by a removed document.
    pub rows: Vec<Option<Vec<(usize, String)>>>,
    /// The inverted index, as a set of posting records.
    pub postings: Vec<Posting>,
    /// The facet index, as a set of membership records.
    pub facets: Vec<Facet>,
}

/// First index at or after `i` whose external id views as `x`, else -1.
pub open spec fn ext_index_from(ext: Seq<(String, usize)>, x: Seq<char>, i: int) -> int
    decreases ext.len() - i,
{
    if i < 0 || i >= ext.len() {
        -1
    } else if ext[i].0@ == x {
        i
    } else {
        ext_index_from(ext, x, i + 1)
    }
}

/// Index of external id `x` in the mapping, else -1.
pub open spec fn ext_index_of(ext: Seq<(String, usize)>, x: Seq<char>) -> int {
    ext_index_from(ext, x, 0)
}

/// First value bound to field id `f` in a row, scanning from entry `i`.
pub open spec fn row_value_from(row: Seq<(usize, String)>, f: usize, i: int) -> Option<Seq<char>>
    decreases row.len() - i,
{
    if i < 0 || i >= row.len() {
        None
    } else if row[i].0 == f {
        Some(row[i].1@)
    } else {
        row_value_from(row, f, i + 1)
    }
}

/// The value a row binds to field id `f`, if any.
pub open spec fn row_value(row: Seq<(usize, String)>, f: usize) -> Option<Seq<char>> {
    row_value_from(row, f, 0)
}

/// The posting list `ps` holds the record (t, f, d, p).
pub open spec fn phas(ps: Seq<Posting>, t: Seq<char>, f: usize, d: usize, p: usize) -> bool {
    exists|i: int|
        0 <= i < ps.len() && (#[trigger] ps[i]).term@ == t && ps[i].fid == f && ps[i].doc == d
            && ps[i].pos == p
}

/// The facet list `fs` holds the record (f, v, d).
pub open spec fn fhas(fs: Seq<Facet>, f: usize, v: Seq<char>, d: usize) -> bool {
    exists|i: int|
        0 <= i < fs.len() && (#[trigger] fs[i]).fid == f && fs[i].value@ == v && fs[i].doc == d
}

/// Effect of appending one posting record on membership.
pub proof fn lemma_phas_push(ps: Seq<Posting>, x: Posting)
    ensures
        forall|t: Seq<char>, f: usize, d2: usize, p: usize|
            #![trigger phas(ps.push(x), t, f, d2, p)]
            phas(ps.push(x), t, f, d2, p) <==> (phas(ps, t, f, d2, p) || (x.term@ == t && x.fid == f
                && x.doc == d2 && x.pos == p)),
{
    assert forall|t: Seq<char>, f: usize, d2: usize, p: usize|
        #![trigger phas(ps.push(x), t, f, d2, p)]
        phas(ps.push(x), t, f, d2, p) <==> (phas(ps, t, f, d2, p) || (x.term@ == t && x.fid == f
            && x.doc == d2 && x.pos == p)) by {
        if phas(ps.push(x), t, f, d2, p) {
            let i = choose|i: int|
                0 <= i < ps.push(x).len() && (#[trigger] ps.push(x)[i]).term@ == t
                    && ps.push(x)[i].fid == f && ps.push(x)[i].doc == d2 && ps.push(x)[i].pos == p;
            if i < ps.len() {
                assert(ps[i] == ps.push(x)[i]);
            } else {
                assert(ps.push(x)[i] == x);
            }
        }
        if phas(ps, t, f, d2, p) {
            let i = choose|i: int|
                0 <= i < ps.len() && (#[trigger] ps[i]).term@ == t && ps[i].fid == f && ps[i].doc
                    == d2 && ps[i].pos == p;
            assert(ps.push(x)[i] == ps[i]);
        }
        if x.term@ == t && x.fid == f && x.doc == d2 && x.pos == p {
            assert(ps.push(x)[ps.len() as int] == x);
        }
    }
}

/// Effect of appending one facet record on membership.
pub proof fn lemma_fhas_push(fs: Seq<Facet>, x: Facet)
    ensures
        forall|f: usize, v: Seq<char>, d2: usize|
            #![trigger fhas(fs.push(x), f, v, d2)]
            fhas(fs.push(x), f, v, d2) <==> (fhas(fs, f, v, d2) || (x.fid == f && x.value@ == v
                && x.doc == d2)),
{
    assert forall|f: usize, v: Seq<char>, d2: usize|
        #![trigger fhas(fs.push(x), f, v, d2)]
        fhas(fs.push(x), f, v, d2) <==> (fhas(fs, f, v, d2) || (x.fid == f && x.value@ == v && x.doc
            == d2)) by {
        if fhas(fs.push(x), f, v, d2) {
            let i = choose|i: int|
                0 <= i < fs.push(x).len() && (#[trigger] fs.push(x)[i]).fid == f
                    && fs.push(x)[i].value@ == v && fs.push(x)[i].doc == d2;
            if i < fs.len() {
                assert(fs[i] == fs.push(x)[i]);
            } else {
                assert(fs.push(x)[i] == x);
            }
        }
        if fhas(fs, f, v, d2) {
            let i = choose|i: int|
                0 <= i < fs.len() && (#[trigger] fs[i]).fid == f && fs[i].value@ == v && fs[i].doc
                    == d2;
            assert(fs.push(x)[i] == fs[i]);
        }
        if x.fid == f && x.value@ == v && x.doc == d2 {
            assert(fs.push(x)[fs.len() as int] == x);
        }
    }
}

/// Finds the entry of field id `f` in a row.
pub fn row_find(row: &Vec<(usize, String)>, f: usize) -> (r: Option<usize>)
    ensures
        match r {
            Some(j) => j < row@.len() && row@[j as int].0 == f && row_value(row@, f) == Some(
                row@[j as int].1@,
            ),
            None => row_value(row@, f) is None,
        },
{
    let mut j: usize = 0;
    while j < row.len()
        invariant
            j <= row@.len(),
            row_value(row@, f) == row_value_from(row@, f, j as int),
        decreases row@.len() - j,
    {
        if row[j].0 == f {
            return Some(j);
        }
        j += 1;
    }
    None
}

/// Scan characterization of `ext_index_from`.
pub proof fn lemma_ext_index_from(ext: Seq<(String, usize)>, x: Seq<char>, i: int)
    requires
        0 <= i <= ext.len(),
    ensures
        ext_index_from(ext, x, i) == -1 || i <= ext_index_from(ext, x, i) < ext.len(),
        ext_index_from(ext, x, i) == -1 ==> forall|j: int| i <= j < ext.len() ==> ext[j].0@ != x,
        ext_index_from(ext, x, i) >= 0 ==> ext[ext_index_from(ext, x, i)].0@ == x
            && forall|j: int| i <= j < ext_index_from(ext, x, i) ==> ext[j].0@ != x,
    decreases ext.len() - i,
{
    if i < ext.len() && ext[i].0@ != x {
        lemma_ext_index_from(ext, x, i + 1);
    }
}

/// Membership form of `ext_index_of`.
pub proof fn lemma_ext_mem(ext: Seq<(String, usize)>, y: Seq<char>)
    ensures
        ext_index_of(ext, y) >= 0 <==> exists|j: int| 0 <= j < ext.len() && (#[trigger] ext[j]).0@
            == y,
        ext_index_of(ext, y) >= 0 ==> 0 <= ext_index_of(ext, y) < ext.len()
            && ext[ext_index_of(ext, y)].0@ == y,
{
    lemma_ext_index_from(ext, y, 0);
}

/// Scan characterization of `row_value_from`.
pub proof fn lemma_row_value_from(row: Seq<(usize, String)>, f: usize, i: int)
    requires
        0 <= i <= row.len(),
    ensures
        match row_value_from(row, f, i) {
            Some(v) => exists|j: int|
                i <= j < row.len() && (#[trigger] row[j]).0 == f && row[j].1@ == v,
            None => forall|j: int| i <= j < row.len() ==> (#[trigger] row[j]).0 != f,
        },
    decreases row.len() - i,
{
    if i < row.len() && row[i].0 != f {
        lemma_row_value_from(row, f, i + 1);
    }
}

/// A row valid for `nf` fields binds no field id at or above `nf`.
pub proof fn lemma_row_value_none_above(row: Seq<(usize, String)>, f: usize, nf: int)
    requires
        row_wf(row, nf),
        f >= nf,
    ensures
        row_value(row, f) is None,
{
    lemma_row_value_from(row, f, 0);
    if row_value(row, f) is Some {
        let j = choose|j: int| 0 <= j < row.len() && (#[trigger] row[j]).0 == f && row[j].1@
            == row_value(row, f)->Some_0;
        assert(row[j].0 < nf);
    }
}

/// A stored row is valid for a field table of `nf` entries: every field id in
/// range, no field id repeated.
pub open spec fn row_wf(row: Seq<(usize, String)>, nf: int) -> bool {
    (forall|i: int| 0 <= i < row.len() ==> (#[trigger] row[i]).0 < nf)
        && (forall|i: int, j: int| 0 <= i < j < row.len() ==> row[i].0 != row[j].0)
}

impl Engine {
    /// Field id `f` names a searchable field.
    pub open spec fn is_searchable(self, f: usize) -> bool {
        f < self.field_names@.len() && has_name(self.schema.searchable@, self.field_names@[f as int]@)
    }

    /// Field id `f` names a filterable field.
    pub open spec fn is_filterable(self, f: usize) -> bool {
        f < self.field_names@.len() && has_name(self.schema.filterable@, self.field_names@[f as int]@)
    }

    /// Document `d` is live and stores a row.
    pub open spec fn live(self, d: usize) -> bool {
        d < self.rows@.len() && self.rows@[d as int] is Some
    }

    /// The row of a live document.
    pub open spec fn row_of(self, d: usize) -> Seq<(usize, String)> {
        self.rows@[d as int]->Some_0@
    }

    /// The indexes of the engine must contain a posting (term `t`, field `f`,
    /// document `d`, position `p`) exactly when this holds of the stored rows.
    pub open spec fn derived_posting(self, t: Seq<char>, f: usize, d: usize, p: usize) -> bool {
        self.live(d) && self.is_searchable(f) && {
            let rv = row_value(self.row_of(d), f);
            rv is Some && p < tokens_of(rv->Some_0).len() && tokens_of(rv->Some_0)[p as int] == t
        }
    }

    /// The posting list holds the record (t, f, d, p).
    pub open spec fn postings_has(self, t: Seq<char>, f: usize, d: usize, p: usize) -> bool {
        phas(self.postings@, t, f, d, p)
    }

    /// The facet index must contain (field `f`, value `v`, document `d`)
    /// exactly when this holds of the stored rows.
    pub open spec fn derived_facet(self, f: usize, v: Seq<char>, d: usize) -> bool {
        self.live(d) && self.is_filterable(f) && row_value(self.row_of(d), f) == Some(v)
    }

    /// The facet list holds the record (f, v, d).
    pub open spec fn facets_has(self, f: usize, v: Seq<char>, d: usize) -> bool {
        fhas(self.facets@, f, v, d)
    }

    /// Schema and field-id table validity.
    pub open spec fn wf_table(self) -> bool {
        self.schema.wf() && distinct_names(self.field_names@)
    }

    /// Document-store validity: the external mapping is a bijection onto the
    /// live rows, and every stored row is valid for the field table.
    pub open spec fn wf_store(self) -> bool {
        (forall|k: int|
            0 <= k < self.ext_ids@.len() ==> self.live(#[trigger] self.ext_ids@[k].1))
            && (forall|k1: int, k2: int|
                0 <= k1 < k2 < self.ext_ids@.len() ==> self.ext_ids@[k1].0@ != self.ext_ids@[k2].0@
                    && self.ext_ids@[k1].1 != self.ext_ids@[k2].1)
            && (forall|d: int|
                0 <= d < self.rows@.len() && self.rows@[d] is Some ==> exists|k: int|
                    0 <= k < self.ext_ids@.len() && (#[trigger] self.ext_ids@[k]).1 == d)
            && (forall|d: usize|
                #[trigger] self.live(d) ==> row_wf(self.row_of(d), self.field_names@.len() as int))
    }

    /// Inverted-index validity: sound (every posting is derived from some
    /// stored row) and complete (every derived posting is present).
    pub open spec fn wf_postings(self) -> bool {
        (forall|i: int|
            0 <= i < self.postings@.len() ==> self.derived_posting(
                (#[trigger] self.postings@[i]).term@,
                self.postings@[i].fid,
                self.postings@[i].doc,
                self.postings@[i].pos,
            ))
            && (forall|t: Seq<char>, f: usize, d: usize, p: usize|
                #[trigger] self.derived_posting(t, f, d, p) ==> self.postings_has(t, f, d, p))
    }

    /// Facet-index validity: sound and complete for the stored rows.
    pub open spec fn wf_facets(self) -> bool {
        (forall|i: int|
            0 <= i < self.facets@.len() ==> self.derived_facet(
                (#[trigger] self.facets@[i]).fid,
                self.facets@[i].value@,
                self.facets@[i].doc,
            ))
            && (forall|f: usize, v: Seq<char>, d: usize|
                #[trigger] self.derived_facet(f, v, d) ==> self.facets_has(f, v, d))
    }

    /// The engine invariant: established by `create_index`, preserved by
    /// every mutation.
    pub open spec fn wf(self) -> bool {
        self.wf_table() && self.wf_store() && self.wf_postings() && self.wf_facets()
    }

    /// The row of document `d` keyed by field names instead of field ids.
    pub open spec fn row_named(self, d: usize) -> Seq<(Seq<char>, Seq<char>)> {
        self.row_of(d).map_values(|p: (usize, String)| (self.field_names@[p.0 as int]@, p.1@))
    }

    /// The abstract document store: external id -> stored fields, by name.
    pub open spec fn abs(self) -> Map<Seq<char>, Seq<(Seq<char>, Seq<char>)>> {
        Map::new(
            |x: Seq<char>| ext_index_of(self.ext_ids@, x) >= 0,
            |x: Seq<char>| self.row_named(self.ext_ids@[ext_index_of(self.ext_ids@, x)].1),
        )
    }

    /// The number of live documents.
    pub open spec fn doc_count(self) -> nat {
        self.ext_ids@.len()
    }

    /// Finds the position of external id `x` in the live mapping.
    pub fn find_ext(&self, x: &String) -> (r: Option<usize>)
        ensures
            match r {
                Some(k) => k < self.ext_ids@.len() && ext_index_of(self.ext_ids@, x@) == k,
                None => ext_index_of(self.ext_ids@, x@) == -1,
            },
    {
        let mut k: usize = 0;
        while k < self.ext_ids.len()
            invariant
                k <= self.ext_ids@.len(),
                ext_index_of(self.ext_ids@, x@) == ext_index_from(self.ext_ids@, x@, k as int),
            decreases self.ext_ids@.len() - k,
        {
            if string_eq(&self.ext_ids[k].0, x) {
                return Some(k);
            }
            k += 1;
        }
        None
    }
}

/// Creates an index with the given settings and an empty document store.
///
/// The searchable field order is the Attribute tie-break priority; the
/// criteria order is the ranking stage order.  Fails with `ConfigError`
/// exactly when a searchable field name is repeated.
pub fn create_index(searchable: Vec<String>, filterable: Vec<String>, criteria: Vec<Criterion>)
    -> (r: Result<Engine, EngineError>)
    ensures
        r is Ok <==> distinct_names(searchable@),
        r is Err ==> r->Err_0 == EngineError::ConfigError,
        r is Ok ==> ({
            let e = r->Ok_0;
            e.wf() && e.schema.searchable@ == searchable@ && e.schema.filterable@ == filterable@
                && e.schema.criteria@ == criteria@ && e.doc_count() == 0
                && e.abs() =~= Map::<Seq<char>, Seq<(Seq<char>, Seq<char>)>>::empty()
        }),
{
    let schema = schema_new(searchable, filterable, criteria)?;
    let e = Engine {
        schema,
        field_names: Vec::new(),
        ext_ids: Vec::new(),
        rows: Vec::new(),
        postings: Vec::new(),
        facets: Vec::new(),
    };
    proof {
        assert forall|t: Seq<char>, f: usize, d: usize, p: usize|
            #[trigger] e.derived_posting(t, f, d, p) implies e.postings_has(t, f, d, p) by {
        }
        assert forall|f: usize, v: Seq<char>, d: usize|
            #[trigger] e.derived_facet(f, v, d) implies e.facets_has(f, v, d) by {
        }
    }
    Ok(e)
}

} // verus!
