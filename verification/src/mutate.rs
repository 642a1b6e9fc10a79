use vstd::prelude::*;
use crate::engine::{Engine, Posting, Facet, phas, fhas, row_find, row_value, row_wf,
    lemma_phas_push, lemma_fhas_push, lemma_ext_mem, ext_index_of, lemma_row_value_none_above};
use crate::schema::{distinct_names, string_eq, find_name, has_name};
use crate::errors::EngineError;
use crate::text::{tokenize, tokens_of, toks_view};

verus! {

/// Decoded (name, value) pairs with pairwise-distinct names.
pub open spec fn distinct_fields(fs: Seq<(String, String)>) -> bool {
    forall|i: int, j: int| 0 <= i < j < fs.len() ==> fs[i].0@ != fs[j].0@
}

/// The abstract store after the removals of a batch, applied left to right.
pub open spec fn apply_removes(
    m: Map<Seq<char>, Seq<(Seq<char>, Seq<char>)>>,
    ids: Seq<Seq<char>>,
) -> Map<Seq<char>, Seq<(Seq<char>, Seq<char>)>>
    decreases ids.len(),
{
    if ids.len() == 0 {
        m
    } else {
        apply_removes(m, ids.drop_last()).remove(ids.last())
    }
}

/// The abstract store after the additions of a batch, applied left to right:
/// each document replaces whatever its external id was bound to.
pub open spec fn apply_adds(
    m: Map<Seq<char>, Seq<(Seq<char>, Seq<char>)>>,
    docs: Seq<(Seq<(Seq<char>, Seq<char>)>, Seq<char>)>,
) -> Map<Seq<char>, Seq<(Seq<char>, Seq<char>)>>
    decreases docs.len(),
{
    if docs.len() == 0 {
        m
    } else {
        apply_adds(m, docs.drop_last()).insert(docs.last().1, docs.last().0)
    }
}

/// The parsed documents of a well-formed batch.
pub open spec fn parsed_docs(adds: Seq<String>) -> Seq<(Seq<(Seq<char>, Seq<char>)>, Seq<char>)> {
    adds.map_values(|s: String| crate::json::doc_parse(s@)->Some_0)
}

/// What one batch does to the abstract store: removals first, then additions.
pub open spec fn spec_mutate(
    m: Map<Seq<char>, Seq<(Seq<char>, Seq<char>)>>,
    removes: Seq<Seq<char>>,
    adds: Seq<String>,
) -> Map<Seq<char>, Seq<(Seq<char>, Seq<char>)>> {
    apply_adds(apply_removes(m, removes), parsed_docs(adds))
}

/// After retracting document `d` (state `e1` to `e3`, where the row of `d`
/// was also replaced or appended) and re-indexing it (state `e3` to `e4`),
/// the inverted and facet indexes are again exactly the derived ones.
proof fn lemma_wf_after_insert(e1: Engine, e3: Engine, e4: Engine, d: usize)
    requires
        e1.wf(),
        e3.schema == e1.schema,
        e3.field_names == e1.field_names,
        forall|d2: int|
            0 <= d2 < e1.rows@.len() && d2 != d ==> d2 < e3.rows@.len() && e3.rows@[d2]
                == e1.rows@[d2],
        e3.rows@.len() <= e1.rows@.len() + 1,
        d < e3.rows@.len(),
        e1.rows@.len() == e3.rows@.len() || d == e1.rows@.len(),
        e3.live(d),
        forall|t: Seq<char>, f: usize, d2: usize, p: usize|
            #![trigger phas(e3.postings@, t, f, d2, p)]
            phas(e3.postings@, t, f, d2, p) <==> (phas(e1.postings@, t, f, d2, p) && d2 != d),
        forall|f: usize, v: Seq<char>, d2: usize|
            #![trigger fhas(e3.facets@, f, v, d2)]
            fhas(e3.facets@, f, v, d2) <==> (fhas(e1.facets@, f, v, d2) && d2 != d),
        e4.schema == e3.schema,
        e4.field_names == e3.field_names,
        e4.rows == e3.rows,
        forall|t: Seq<char>, f: usize, d2: usize, p: usize|
            #![trigger phas(e4.postings@, t, f, d2, p)]
            phas(e4.postings@, t, f, d2, p) <==> (phas(e3.postings@, t, f, d2, p) || (d2 == d
                && e4.derived_posting(t, f, d, p))),
        forall|f: usize, v: Seq<char>, d2: usize|
            #![trigger fhas(e4.facets@, f, v, d2)]
            fhas(e4.facets@, f, v, d2) <==> (fhas(e3.facets@, f, v, d2) || (d2 == d
                && e4.derived_facet(f, v, d))),
    ensures
        e4.wf_postings(),
        e4.wf_facets(),
{
    assert forall|t: Seq<char>, f: usize, d2: usize, p: usize|
        d2 != d implies (e4.derived_posting(t, f, d2, p) == e1.derived_posting(t, f, d2, p)) by {
        if e4.live(d2) || e1.live(d2) {
            assert(d2 < e1.rows@.len() ==> e3.rows@[d2 as int] == e1.rows@[d2 as int]);
        }
    }
    assert forall|f: usize, v: Seq<char>, d2: usize|
        d2 != d implies (e4.derived_facet(f, v, d2) == e1.derived_facet(f, v, d2)) by {
        if e4.live(d2) || e1.live(d2) {
            assert(d2 < e1.rows@.len() ==> e3.rows@[d2 as int] == e1.rows@[d2 as int]);
        }
    }
    assert forall|i: int|
        0 <= i < e4.postings@.len() implies e4.derived_posting(
        (#[trigger] e4.postings@[i]).term@,
        e4.postings@[i].fid,
        e4.postings@[i].doc,
        e4.postings@[i].pos,
    ) by {
        let t = e4.postings@[i].term@;
        let f = e4.postings@[i].fid;
        let d2 = e4.postings@[i].doc;
        let p = e4.postings@[i].pos;
        assert(phas(e4.postings@, t, f, d2, p));
        if !(d2 == d && e4.derived_posting(t, f, d, p)) {
            assert(phas(e3.postings@, t, f, d2, p));
            assert(phas(e1.postings@, t, f, d2, p) && d2 != d);
            assert(e1.derived_posting(t, f, d2, p));
        }
    }
    assert forall|t: Seq<char>, f: usize, d2: usize, p: usize|
        #[trigger] e4.derived_posting(t, f, d2, p) implies e4.postings_has(t, f, d2, p) by {
        if d2 != d {
            assert(e1.derived_posting(t, f, d2, p));
            assert(phas(e1.postings@, t, f, d2, p));
            assert(phas(e3.postings@, t, f, d2, p));
        }
        assert(phas(e4.postings@, t, f, d2, p));
    }
    assert forall|i: int|
        0 <= i < e4.facets@.len() implies e4.derived_facet(
        (#[trigger] e4.facets@[i]).fid,
        e4.facets@[i].value@,
        e4.facets@[i].doc,
    ) by {
        let f = e4.facets@[i].fid;
        let v = e4.facets@[i].value@;
        let d2 = e4.facets@[i].doc;
        assert(fhas(e4.facets@, f, v, d2));
        if !(d2 == d && e4.derived_facet(f, v, d)) {
            assert(fhas(e3.facets@, f, v, d2));
            assert(fhas(e1.facets@, f, v, d2) && d2 != d);
            assert(e1.derived_facet(f, v, d2));
        }
    }
    assert forall|f: usize, v: Seq<char>, d2: usize|
        #[trigger] e4.derived_facet(f, v, d2) implies e4.facets_has(f, v, d2) by {
        if d2 != d {
            assert(e1.derived_facet(f, v, d2));
            assert(fhas(e1.facets@, f, v, d2));
            assert(fhas(e3.facets@, f, v, d2));
        }
        assert(fhas(e4.facets@, f, v, d2));
    }
}

impl Engine {
    /// Returns the field id of `name`, assigning the next id on first sight.
    /// Ids are never reassigned: the old table is a prefix of the new one.
    pub fn ensure_field_id(&mut self, name: &String) -> (f: usize)
        requires
            distinct_names(old(self).field_names@),
        ensures
            distinct_names(final(self).field_names@),
            old(self).field_names@.is_prefix_of(final(self).field_names@),
            f < final(self).field_names@.len(),
            final(self).field_names@[f as int]@ == name@,
            final(self).schema == old(self).schema,
            final(self).ext_ids == old(self).ext_ids,
            final(self).rows == old(self).rows,
            final(self).postings == old(self).postings,
            final(self).facets == old(self).facets,
    {
        let mut k: usize = 0;
        while k < self.field_names.len()
            invariant
                k <= self.field_names@.len(),
                forall|j: int| 0 <= j < k ==> self.field_names@[j]@ != name@,
                self == old(self),
                distinct_names(self.field_names@),
            decreases self.field_names@.len() - k,
        {
            if string_eq(&self.field_names[k], name) {
                proof {
                    assert(self.field_names@.is_prefix_of(self.field_names@));
                }
                return k;
            }
            k += 1;
        }
        let f = self.field_names.len();
        self.field_names.push(name.clone());
        proof {
            assert(old(self).field_names@.is_prefix_of(self.field_names@));
            assert forall|i: int, j: int|
                0 <= i < j < self.field_names@.len() implies self.field_names@[i]@
                != self.field_names@[j]@ by {
                if j < f {
                    assert(old(self).field_names@[i]@ != old(self).field_names@[j]@);
                }
            }
        }
        f
    }

    /// Encodes decoded fields as a stored row, assigning field ids in order
    /// of first sight.
    pub fn build_row(&mut self, fields: &Vec<(String, String)>) -> (row: Vec<(usize, String)>)
        requires
            distinct_names(old(self).field_names@),
            distinct_fields(fields@),
        ensures
            distinct_names(final(self).field_names@),
            old(self).field_names@.is_prefix_of(final(self).field_names@),
            final(self).schema == old(self).schema,
            final(self).ext_ids == old(self).ext_ids,
            final(self).rows == old(self).rows,
            final(self).postings == old(self).postings,
            final(self).facets == old(self).facets,
            row@.len() == fields@.len(),
            forall|i: int|
                0 <= i < row@.len() ==> (#[trigger] row@[i]).0 < final(self).field_names@.len()
                    && final(self).field_names@[row@[i].0 as int]@ == fields@[i].0@
                    && row@[i].1@ == fields@[i].1@,
            forall|i: int, j: int| 0 <= i < j < row@.len() ==> row@[i].0 != row@[j].0,
    {
        let ghost e0 = *self;
        let mut row: Vec<(usize, String)> = Vec::new();
        let mut i: usize = 0;
        while i < fields.len()
            invariant
                i <= fields@.len(),
                row@.len() == i,
                distinct_fields(fields@),
                distinct_names(self.field_names@),
                e0.field_names@.is_prefix_of(self.field_names@),
                self.schema == e0.schema,
                self.ext_ids == e0.ext_ids,
                self.rows == e0.rows,
                self.postings == e0.postings,
                self.facets == e0.facets,
                forall|a: int|
                    0 <= a < i ==> (#[trigger] row@[a]).0 < self.field_names@.len()
                        && self.field_names@[row@[a].0 as int]@ == fields@[a].0@
                        && row@[a].1@ == fields@[a].1@,
            decreases fields@.len() - i,
        {
            let ghost table_before = self.field_names@;
            let f = self.ensure_field_id(&fields[i].0);
            row.push((f, fields[i].1.clone()));
            proof {
                assert(e0.field_names@.is_prefix_of(self.field_names@));
                assert forall|a: int|
                    0 <= a < i + 1 implies (#[trigger] row@[a]).0 < self.field_names@.len()
                        && self.field_names@[row@[a].0 as int]@ == fields@[a].0@
                        && row@[a].1@ == fields@[a].1@ by {
                    if a < i {
                        assert(table_before[row@[a].0 as int]@ == fields@[a].0@);
                        assert(self.field_names@[row@[a].0 as int] == table_before[row@[a].0 as int]);
                    }
                }
            }
            i += 1;
        }
        proof {
            assert forall|a: int, b: int| 0 <= a < b < row@.len() implies row@[a].0
                != row@[b].0 by {
                assert(fields@[a].0@ != fields@[b].0@);
            }
        }
        row
    }

    /// Inserts the postings and facet memberships of document `d`, derived
    /// from its stored row: searchable fields are tokenized in schema field
    /// order with positions starting at 0 per field, filterable fields feed
    /// the facet index.  Requires that `d` has no index records yet.
    pub fn insert_doc_index(&mut self, d: usize)
        requires
            old(self).wf_table(),
            old(self).live(d),
            row_wf(old(self).row_of(d), old(self).field_names@.len() as int),
            forall|i: int|
                0 <= i < old(self).postings@.len() ==> (#[trigger] old(self).postings@[i]).doc != d,
            forall|i: int|
                0 <= i < old(self).facets@.len() ==> (#[trigger] old(self).facets@[i]).doc != d,
        ensures
            final(self).schema == old(self).schema,
            final(self).field_names == old(self).field_names,
            final(self).ext_ids == old(self).ext_ids,
            final(self).rows == old(self).rows,
            forall|t: Seq<char>, f: usize, d2: usize, p: usize|
                #![trigger phas(final(self).postings@, t, f, d2, p)]
                phas(final(self).postings@, t, f, d2, p) <==> (phas(old(self).postings@, t, f, d2, p)
                    || (d2 == d && final(self).derived_posting(t, f, d, p))),
            forall|f: usize, v: Seq<char>, d2: usize|
                #![trigger fhas(final(self).facets@, f, v, d2)]
                fhas(final(self).facets@, f, v, d2) <==> (fhas(old(self).facets@, f, v, d2) || (d2
                    == d && final(self).derived_facet(f, v, d))),
    {
        let ghost ps0 = self.postings@;
        let ghost fs0 = self.facets@;
        let mut s: usize = 0;
        while s < self.schema.searchable.len()
            invariant
                s <= self.schema.searchable@.len(),
                self.schema == old(self).schema,
                self.field_names == old(self).field_names,
                self.ext_ids == old(self).ext_ids,
                self.rows == old(self).rows,
                self.facets@ == fs0,
                self.wf_table(),
                self.live(d),
                row_wf(self.row_of(d), self.field_names@.len() as int),
                forall|i: int| 0 <= i < ps0.len() ==> (#[trigger] ps0[i]).doc != d,
                forall|t: Seq<char>, f: usize, d2: usize, p: usize|
                    #![trigger phas(self.postings@, t, f, d2, p)]
                    phas(self.postings@, t, f, d2, p) ==> (phas(ps0, t, f, d2, p) || (d2 == d
                        && self.derived_posting(t, f, d, p))),
                forall|t: Seq<char>, f: usize, d2: usize, p: usize|
                    #![trigger phas(ps0, t, f, d2, p)]
                    phas(ps0, t, f, d2, p) ==> phas(self.postings@, t, f, d2, p),
                forall|t: Seq<char>, f: usize, p: usize|
                    #![trigger phas(self.postings@, t, f, d, p)]
                    (self.derived_posting(t, f, d, p) && exists|s2: int|
                        0 <= s2 < s && self.schema.searchable@[s2]@
                            == self.field_names@[f as int]@) ==> phas(self.postings@, t, f, d, p),
            decreases self.schema.searchable@.len() - s,
        {
            let fo = find_name(&self.field_names, &self.schema.searchable[s]);
            match fo {
                None => {
                    proof {
                        assert forall|t: Seq<char>, f: usize, p: usize|
                            (self.derived_posting(t, f, d, p) && exists|s2: int|
                                0 <= s2 < s + 1 && self.schema.searchable@[s2]@
                                    == self.field_names@[f as int]@) implies phas(
                            self.postings@, t, f, d, p) by {
                            let s2 = choose|s2: int|
                                0 <= s2 < s + 1 && self.schema.searchable@[s2]@
                                    == self.field_names@[f as int]@;
                            if s2 == s {
                                assert(has_name(self.field_names@, self.schema.searchable@[s as int]@));
                                assert(false);
                            }
                        }
                    }
                },
                Some(fidx) => {
                    let mut toks: Vec<Vec<char>> = Vec::new();
                    let mut has_field = false;
                    let ghost mut valv: Seq<char> = Seq::empty();
                    match &self.rows[d] {
                        Some(row) => {
                            match row_find(row, fidx) {
                                Some(j) => {
                                    toks = tokenize(row[j].1.as_str());
                                    has_field = true;
                                    proof {
                                        valv = row@[j as int].1@;
                                    }
                                },
                                None => {},
                            }
                        },
                        None => {
                            proof {
                                assert(false);
                            }
                        },
                    }
                    if has_field {
                        let ghost all: Seq<Vec<char>> = toks@;
                        let ghost total: int = all.len() as int;
                        let ghost ps_field = self.postings@;
                        while toks.len() > 0
                            invariant
                                toks@ == all.subrange(0, toks@.len() as int),
                                toks@.len() <= total,
                                total == all.len(),
                                s < self.schema.searchable@.len(),
                                self.schema == old(self).schema,
                                self.field_names == old(self).field_names,
                                self.ext_ids == old(self).ext_ids,
                                self.rows == old(self).rows,
                                self.facets@ == fs0,
                                self.wf_table(),
                                self.live(d),
                                row_wf(self.row_of(d), self.field_names@.len() as int),
                                fidx < self.field_names@.len(),
                                self.field_names@[fidx as int]@
                                    == self.schema.searchable@[s as int]@,
                                row_value(self.row_of(d), fidx) == Some(valv),
                                toks_view(all) == tokens_of(valv),
                                forall|i: int| 0 <= i < ps0.len() ==> (#[trigger] ps0[i]).doc != d,
                                forall|t: Seq<char>, f: usize, d2: usize, p: usize|
                                    #![trigger phas(self.postings@, t, f, d2, p)]
                                    phas(self.postings@, t, f, d2, p) ==> (phas(ps0, t, f, d2, p)
                                        || (d2 == d && self.derived_posting(t, f, d, p))),
                                forall|t: Seq<char>, f: usize, d2: usize, p: usize|
                                    #![trigger phas(ps0, t, f, d2, p)]
                                    phas(ps0, t, f, d2, p) ==> phas(self.postings@, t, f, d2, p),
                                forall|t: Seq<char>, f: usize, p: usize|
                                    #![trigger phas(self.postings@, t, f, d, p)]
                                    (self.derived_posting(t, f, d, p) && exists|s2: int|
                                        0 <= s2 < s && self.schema.searchable@[s2]@
                                            == self.field_names@[f as int]@) ==> phas(
                                        self.postings@, t, f, d, p),
                                forall|p: usize|
                                    toks@.len() <= p < total ==> phas(
                                        self.postings@, all[p as int]@, fidx, d, p),
                            decreases toks@.len(),
                        {
                            let ghost toks_before = toks@;
                            let t = toks.pop();
                            match t {
                                None => {},
                                Some(tok) => {
                                    let pos = toks.len();
                                    proof {
                                        assert(tok == all[pos as int]);
                                        assert(toks@ =~= all.subrange(0, toks@.len() as int));
                                        lemma_phas_push(
                                            self.postings@,
                                            Posting { term: tok, fid: fidx, doc: d, pos },
                                        );
                                        assert(toks_view(all)[pos as int] == all[pos as int]@);
                                        assert(self.derived_posting(tok@, fidx, d, pos));
                                    }
                                    self.postings.push(Posting { term: tok, fid: fidx, doc: d, pos });
                                },
                            }
                        }
                        proof {
                            assert forall|t: Seq<char>, f: usize, p: usize|
                                (self.derived_posting(t, f, d, p) && exists|s2: int|
                                    0 <= s2 < s + 1 && self.schema.searchable@[s2]@
                                        == self.field_names@[f as int]@) implies phas(
                                self.postings@, t, f, d, p) by {
                                let s2 = choose|s2: int|
                                    0 <= s2 < s + 1 && self.schema.searchable@[s2]@
                                        == self.field_names@[f as int]@;
                                if s2 == s {
                                    assert(f == fidx);
                                    assert(tokens_of(valv)[p as int] == t);
                                    assert(toks_view(all)[p as int] == all[p as int]@);
                                    assert(phas(self.postings@, all[p as int]@, fidx, d, p));
                                }
                            }
                        }
                    } else {
                        proof {
                            assert forall|t: Seq<char>, f: usize, p: usize|
                                (self.derived_posting(t, f, d, p) && exists|s2: int|
                                    0 <= s2 < s + 1 && self.schema.searchable@[s2]@
                                        == self.field_names@[f as int]@) implies phas(
                                self.postings@, t, f, d, p) by {
                                let s2 = choose|s2: int|
                                    0 <= s2 < s + 1 && self.schema.searchable@[s2]@
                                        == self.field_names@[f as int]@;
                                if s2 == s {
                                    assert(f == fidx);
                                }
                            }
                        }
                    }
                },
            }
            s += 1;
        }
        proof {
            assert forall|t: Seq<char>, f: usize, d2: usize, p: usize|
                #![trigger phas(self.postings@, t, f, d2, p)]
                phas(self.postings@, t, f, d2, p) <==> (phas(ps0, t, f, d2, p) || (d2 == d
                    && self.derived_posting(t, f, d, p))) by {
                if self.derived_posting(t, f, d, p) && d2 == d {
                    let nm = self.field_names@[f as int]@;
                    assert(has_name(self.schema.searchable@, nm));
                    let s2 = choose|s2: int|
                        0 <= s2 < self.schema.searchable@.len() && self.schema.searchable@[s2]@
                            == nm;
                    assert(phas(self.postings@, t, f, d, p));
                }
            }
        }
        let mut s: usize = 0;
        while s < self.schema.filterable.len()
            invariant
                s <= self.schema.filterable@.len(),
                self.schema == old(self).schema,
                self.field_names == old(self).field_names,
                self.ext_ids == old(self).ext_ids,
                self.rows == old(self).rows,
                forall|t: Seq<char>, f: usize, d2: usize, p: usize|
                    #![trigger phas(self.postings@, t, f, d2, p)]
                    phas(self.postings@, t, f, d2, p) <==> (phas(ps0, t, f, d2, p) || (d2 == d
                        && self.derived_posting(t, f, d, p))),
                self.wf_table(),
                self.live(d),
                row_wf(self.row_of(d), self.field_names@.len() as int),
                forall|i: int| 0 <= i < fs0.len() ==> (#[trigger] fs0[i]).doc != d,
                forall|f: usize, v: Seq<char>, d2: usize|
                    #![trigger fhas(self.facets@, f, v, d2)]
                    fhas(self.facets@, f, v, d2) ==> (fhas(fs0, f, v, d2) || (d2 == d
                        && self.derived_facet(f, v, d))),
                forall|f: usize, v: Seq<char>, d2: usize|
                    #![trigger fhas(fs0, f, v, d2)]
                    fhas(fs0, f, v, d2) ==> fhas(self.facets@, f, v, d2),
                forall|f: usize, v: Seq<char>|
                    #![trigger fhas(self.facets@, f, v, d)]
                    (self.derived_facet(f, v, d) && exists|s2: int|
                        0 <= s2 < s && self.schema.filterable@[s2]@
                            == self.field_names@[f as int]@) ==> fhas(self.facets@, f, v, d),
            decreases self.schema.filterable@.len() - s,
        {
            let fo = find_name(&self.field_names, &self.schema.filterable[s]);
            match fo {
                None => {
                    proof {
                        assert forall|f: usize, v: Seq<char>|
                            (self.derived_facet(f, v, d) && exists|s2: int|
                                0 <= s2 < s + 1 && self.schema.filterable@[s2]@
                                    == self.field_names@[f as int]@) implies fhas(
                            self.facets@, f, v, d) by {
                            let s2 = choose|s2: int|
                                0 <= s2 < s + 1 && self.schema.filterable@[s2]@
                                    == self.field_names@[f as int]@;
                            if s2 == s {
                                assert(has_name(self.field_names@, self.schema.filterable@[s as int]@));
                                assert(false);
                            }
                        }
                    }
                },
                Some(fidx) => {
                    let mut fval: Option<String> = None;
                    match &self.rows[d] {
                        Some(row) => {
                            match row_find(row, fidx) {
                                Some(j) => {
                                    fval = Some(row[j].1.clone());
                                },
                                None => {},
                            }
                        },
                        None => {
                            proof {
                                assert(false);
                            }
                        },
                    }
                    match fval {
                        Some(v) => {
                            proof {
                                lemma_fhas_push(
                                    self.facets@,
                                    Facet { fid: fidx, value: v, doc: d },
                                );
                                assert(self.derived_facet(fidx, v@, d));
                            }
                            self.facets.push(Facet { fid: fidx, value: v, doc: d });
                            proof {
                                assert forall|f: usize, v2: Seq<char>|
                                    (self.derived_facet(f, v2, d) && exists|s2: int|
                                        0 <= s2 < s + 1 && self.schema.filterable@[s2]@
                                            == self.field_names@[f as int]@) implies fhas(
                                    self.facets@, f, v2, d) by {
                                    let s2 = choose|s2: int|
                                        0 <= s2 < s + 1 && self.schema.filterable@[s2]@
                                            == self.field_names@[f as int]@;
                                    if s2 == s {
                                        assert(f == fidx);
                                    }
                                }
                            }
                        },
                        None => {
                            proof {
                                assert forall|f: usize, v2: Seq<char>|
                                    (self.derived_facet(f, v2, d) && exists|s2: int|
                                        0 <= s2 < s + 1 && self.schema.filterable@[s2]@
                                            == self.field_names@[f as int]@) implies fhas(
                                    self.facets@, f, v2, d) by {
                                    let s2 = choose|s2: int|
                                        0 <= s2 < s + 1 && self.schema.filterable@[s2]@
                                            == self.field_names@[f as int]@;
                                    if s2 == s {
                                        assert(f == fidx);
                                    }
                                }
                            }
                        },
                    }
                },
            }
            s += 1;
        }
        proof {
            assert forall|f: usize, v: Seq<char>, d2: usize|
                #![trigger fhas(self.facets@, f, v, d2)]
                fhas(self.facets@, f, v, d2) <==> (fhas(fs0, f, v, d2) || (d2 == d
                    && self.derived_facet(f, v, d))) by {
                if self.derived_facet(f, v, d) && d2 == d {
                    let nm = self.field_names@[f as int]@;
                    assert(has_name(self.schema.filterable@, nm));
                    let s2 = choose|s2: int|
                        0 <= s2 < self.schema.filterable@.len() && self.schema.filterable@[s2]@
                            == nm;
                    assert(fhas(self.facets@, f, v, d));
                }
            }
        }
    }

    /// Retracts every posting and facet membership of document `d`, leaving
    /// the rest of the two indexes untouched.
    pub fn retract_doc(&mut self, d: usize)
        ensures
            final(self).schema == old(self).schema,
            final(self).field_names == old(self).field_names,
            final(self).ext_ids == old(self).ext_ids,
            final(self).rows == old(self).rows,
            forall|t: Seq<char>, f: usize, d2: usize, p: usize|
                #![trigger phas(final(self).postings@, t, f, d2, p)]
                phas(final(self).postings@, t, f, d2, p) <==> (phas(old(self).postings@, t, f, d2, p)
                    && d2 != d),
            forall|f: usize, v: Seq<char>, d2: usize|
                #![trigger fhas(final(self).facets@, f, v, d2)]
                fhas(final(self).facets@, f, v, d2) <==> (fhas(old(self).facets@, f, v, d2)
                    && d2 != d),
    {
        let ghost ps0 = self.postings@;
        let mut kept: Vec<Posting> = Vec::new();
        while self.postings.len() > 0
            invariant
                self.schema == old(self).schema,
                self.field_names == old(self).field_names,
                self.ext_ids == old(self).ext_ids,
                self.rows == old(self).rows,
                self.facets == old(self).facets,
                forall|i: int| 0 <= i < kept@.len() ==> (#[trigger] kept@[i]).doc != d,
                forall|t: Seq<char>, f: usize, d2: usize, p: usize|
                    #![trigger phas(ps0, t, f, d2, p)]
                    d2 != d ==> (phas(ps0, t, f, d2, p) <==> (phas(self.postings@, t, f, d2, p)
                        || phas(kept@, t, f, d2, p))),
                forall|t: Seq<char>, f: usize, d2: usize, p: usize|
                    #![trigger phas(kept@, t, f, d2, p)]
                    phas(kept@, t, f, d2, p) ==> phas(ps0, t, f, d2, p),
                forall|t: Seq<char>, f: usize, d2: usize, p: usize|
                    #![trigger phas(self.postings@, t, f, d2, p)]
                    phas(self.postings@, t, f, d2, p) ==> phas(ps0, t, f, d2, p),
            decreases self.postings@.len(),
        {
            let ghost rem_before = self.postings@;
            let ghost kept_before = kept@;
            let p = self.postings.pop();
            match p {
                None => {},
                Some(p) => {
                    let ghost pv = p;
                    let keep = p.doc != d;
                    if keep {
                        kept.push(p);
                    }
                    proof {
                        assert(phas(rem_before, pv.term@, pv.fid, pv.doc, pv.pos)) by {
                            assert(rem_before[rem_before.len() - 1] == pv);
                        }
                        assert(phas(ps0, pv.term@, pv.fid, pv.doc, pv.pos));
                        assert forall|t: Seq<char>, f: usize, d2: usize, q: usize|
                            d2 != d && phas(ps0, t, f, d2, q) implies (phas(
                            self.postings@, t, f, d2, q) || phas(kept@, t, f, d2, q)) by {
                            assert(phas(rem_before, t, f, d2, q) || phas(kept_before, t, f, d2, q));
                            if phas(kept_before, t, f, d2, q) {
                                let i = choose|i: int|
                                    0 <= i < kept_before.len() && (#[trigger] kept_before[i]).term@
                                        == t && kept_before[i].fid == f && kept_before[i].doc == d2
                                        && kept_before[i].pos == q;
                                assert(kept@[i] == kept_before[i]);
                                assert(phas(kept@, t, f, d2, q));
                            } else {
                                let i = choose|i: int|
                                    0 <= i < rem_before.len() && (#[trigger] rem_before[i]).term@
                                        == t && rem_before[i].fid == f && rem_before[i].doc == d2
                                        && rem_before[i].pos == q;
                                if i < rem_before.len() - 1 {
                                    assert(self.postings@[i] == rem_before[i]);
                                    assert(phas(self.postings@, t, f, d2, q));
                                } else {
                                    assert(rem_before[i] == pv);
                                    assert(keep);
                                    assert(kept@[kept@.len() - 1] == pv);
                                    assert(phas(kept@, t, f, d2, q));
                                }
                            }
                        }
                        assert forall|t: Seq<char>, f: usize, d2: usize, q: usize|
                            phas(kept@, t, f, d2, q) implies phas(ps0, t, f, d2, q) by {
                            let i = choose|i: int|
                                0 <= i < kept@.len() && (#[trigger] kept@[i]).term@ == t
                                    && kept@[i].fid == f && kept@[i].doc == d2 && kept@[i].pos == q;
                            if i < kept@.len() - 1 || !keep {
                                assert(kept_before[i] == kept@[i]);
                                assert(phas(kept_before, t, f, d2, q));
                            } else {
                                assert(kept@[i] == pv);
                            }
                        }
                        assert forall|t: Seq<char>, f: usize, d2: usize, q: usize|
                            phas(self.postings@, t, f, d2, q) implies phas(ps0, t, f, d2, q) by {
                            let i = choose|i: int|
                                0 <= i < self.postings@.len() && (#[trigger] self.postings@[i]).term@
                                    == t && self.postings@[i].fid == f && self.postings@[i].doc == d2
                                    && self.postings@[i].pos == q;
                            assert(rem_before[i] == self.postings@[i]);
                            assert(phas(rem_before, t, f, d2, q));
                        }
                    }
                },
            }
        }
        self.postings = kept;
        proof {
            assert forall|t: Seq<char>, f: usize, d2: usize, p: usize|
                #![trigger phas(self.postings@, t, f, d2, p)]
                phas(self.postings@, t, f, d2, p) <==> (phas(ps0, t, f, d2, p) && d2 != d) by {
                if phas(self.postings@, t, f, d2, p) {
                    let i = choose|i: int|
                        0 <= i < self.postings@.len() && (#[trigger] self.postings@[i]).term@ == t
                            && self.postings@[i].fid == f && self.postings@[i].doc == d2
                            && self.postings@[i].pos == p;
                    assert(self.postings@[i].doc != d);
                }
            }
        }
        let ghost fs0 = self.facets@;
        let mut fkept: Vec<Facet> = Vec::new();
        while self.facets.len() > 0
            invariant
                self.schema == old(self).schema,
                self.field_names == old(self).field_names,
                self.ext_ids == old(self).ext_ids,
                self.rows == old(self).rows,
                forall|t: Seq<char>, f: usize, d2: usize, p: usize|
                    #![trigger phas(self.postings@, t, f, d2, p)]
                    phas(self.postings@, t, f, d2, p) <==> (phas(ps0, t, f, d2, p) && d2 != d),
                forall|i: int| 0 <= i < fkept@.len() ==> (#[trigger] fkept@[i]).doc != d,
                forall|f: usize, v: Seq<char>, d2: usize|
                    #![trigger fhas(fs0, f, v, d2)]
                    d2 != d ==> (fhas(fs0, f, v, d2) <==> (fhas(self.facets@, f, v, d2) || fhas(
                        fkept@, f, v, d2))),
                forall|f: usize, v: Seq<char>, d2: usize|
                    #![trigger fhas(fkept@, f, v, d2)]
                    fhas(fkept@, f, v, d2) ==> fhas(fs0, f, v, d2),
                forall|f: usize, v: Seq<char>, d2: usize|
                    #![trigger fhas(self.facets@, f, v, d2)]
                    fhas(self.facets@, f, v, d2) ==> fhas(fs0, f, v, d2),
            decreases self.facets@.len(),
        {
            let ghost rem_before = self.facets@;
            let ghost kept_before = fkept@;
            let p = self.facets.pop();
            match p {
                None => {},
                Some(p) => {
                    let ghost pv = p;
                    let keep = p.doc != d;
                    if keep {
                        fkept.push(p);
                    }
                    proof {
                        assert(fhas(rem_before, pv.fid, pv.value@, pv.doc)) by {
                            assert(rem_before[rem_before.len() - 1] == pv);
                        }
                        assert(fhas(fs0, pv.fid, pv.value@, pv.doc));
                        assert forall|f: usize, v: Seq<char>, d2: usize|
                            d2 != d && fhas(fs0, f, v, d2) implies (fhas(self.facets@, f, v, d2)
                                || fhas(fkept@, f, v, d2)) by {
                            assert(fhas(rem_before, f, v, d2) || fhas(kept_before, f, v, d2));
                            if fhas(kept_before, f, v, d2) {
                                let i = choose|i: int|
                                    0 <= i < kept_before.len() && (#[trigger] kept_before[i]).fid
                                        == f && kept_before[i].value@ == v && kept_before[i].doc
                                        == d2;
                                assert(fkept@[i] == kept_before[i]);
                                assert(fhas(fkept@, f, v, d2));
                            } else {
                                let i = choose|i: int|
                                    0 <= i < rem_before.len() && (#[trigger] rem_before[i]).fid == f
                                        && rem_before[i].value@ == v && rem_before[i].doc == d2;
                                if i < rem_before.len() - 1 {
                                    assert(self.facets@[i] == rem_before[i]);
                                    assert(fhas(self.facets@, f, v, d2));
                                } else {
                                    assert(rem_before[i] == pv);
                                    assert(keep);
                                    assert(fkept@[fkept@.len() - 1] == pv);
                                    assert(fhas(fkept@, f, v, d2));
                                }
                            }
                        }
                        assert forall|f: usize, v: Seq<char>, d2: usize|
                            fhas(fkept@, f, v, d2) implies fhas(fs0, f, v, d2) by {
                            let i = choose|i: int|
                                0 <= i < fkept@.len() && (#[trigger] fkept@[i]).fid == f
                                    && fkept@[i].value@ == v && fkept@[i].doc == d2;
                            if i < fkept@.len() - 1 || !keep {
                                assert(kept_before[i] == fkept@[i]);
                                assert(fhas(kept_before, f, v, d2));
                            } else {
                                assert(fkept@[i] == pv);
                            }
                        }
                        assert forall|f: usize, v: Seq<char>, d2: usize|
                            fhas(self.facets@, f, v, d2) implies fhas(fs0, f, v, d2) by {
                            let i = choose|i: int|
                                0 <= i < self.facets@.len() && (#[trigger] self.facets@[i]).fid == f
                                    && self.facets@[i].value@ == v && self.facets@[i].doc == d2;
                            assert(rem_before[i] == self.facets@[i]);
                            assert(fhas(rem_before, f, v, d2));
                        }
                    }
                },
            }
        }
        self.facets = fkept;
        proof {
            assert forall|f: usize, v: Seq<char>, d2: usize|
                #![trigger fhas(self.facets@, f, v, d2)]
                fhas(self.facets@, f, v, d2) <==> (fhas(fs0, f, v, d2) && d2 != d) by {
                if fhas(self.facets@, f, v, d2) {
                    let i = choose|i: int|
                        0 <= i < self.facets@.len() && (#[trigger] self.facets@[i]).fid == f
                            && self.facets@[i].value@ == v && self.facets@[i].doc == d2;
                    assert(self.facets@[i].doc != d);
                }
            }
        }
    }

    /// Removes the document stored under external id `x`: its postings and
    /// facet memberships are retracted, its row and mapping dropped, and its
    /// internal id left as a permanent gap.  Removing an absent id is a no-op.
    pub fn remove_one(&mut self, x: &String)
        requires
            old(self).wf(),
        ensures
            final(self).wf(),
            final(self).schema == old(self).schema,
            final(self).abs() == old(self).abs().remove(x@),
            ext_index_of(old(self).ext_ids@, x@) >= 0 ==> final(self).doc_count() + 1 == old(
                self,
            ).doc_count(),
            ext_index_of(old(self).ext_ids@, x@) == -1 ==> *final(self) == *old(self),
    {
        let ko = self.find_ext(x);
        match ko {
            None => {
                proof {
                    lemma_ext_mem(self.ext_ids@, x@);
                    assert(!self.abs().dom().contains(x@));
                    assert(self.abs() =~= self.abs().remove(x@));
                }
            },
            Some(k) => {
                let ghost e0 = *self;
                let d = self.ext_ids[k].1;
                self.retract_doc(d);
                self.ext_ids.remove(k);
                self.rows.set(d, None);
                proof {
                    let ghost e2 = *self;
                    let ext0 = e0.ext_ids@;
                    let ext2 = e2.ext_ids@;
                    lemma_ext_mem(ext0, x@);
                    assert(ext0[k as int].0@ == x@);
                    assert forall|j: int| 0 <= j < ext2.len() implies #[trigger] ext2[j] == (
                    if j < k {
                        ext0[j]
                    } else {
                        ext0[j + 1]
                    }) by {
                        assert(ext2 == ext0.remove(k as int));
                    }
                    // the removed document is gone; every other document is untouched
                    assert forall|d2: usize| d2 != d implies (e2.live(d2) == e0.live(d2) && (
                    e2.live(d2) ==> e2.row_of(d2) == e0.row_of(d2))) by {}
                    // store well-formedness
                    assert forall|j: int|
                        0 <= j < ext2.len() implies e2.live(#[trigger] ext2[j].1) by {
                        let j0 = if j < k {
                            j
                        } else {
                            j + 1
                        };
                        assert(ext0[j0].1 != d);
                    }
                    assert forall|d2: int|
                        0 <= d2 < e2.rows@.len() && e2.rows@[d2] is Some implies exists|j: int|
                        0 <= j < ext2.len() && (#[trigger] ext2[j]).1 == d2 by {
                        assert(e2.rows@[d as int] is None);
                        assert(d2 != d);
                        assert(e0.rows@[d2] is Some);
                        assert(exists|j0: int|
                            0 <= j0 < e0.ext_ids@.len() && (#[trigger] e0.ext_ids@[j0]).1 == d2);
                        let j0 = choose|j0: int|
                            0 <= j0 < e0.ext_ids@.len() && (#[trigger] e0.ext_ids@[j0]).1 == d2;
                        assert(ext0[k as int].1 == d);
                        assert(j0 != k);
                        let j = if j0 < k {
                            j0
                        } else {
                            j0 - 1
                        };
                        assert(ext2[j].1 == d2);
                    }
                    assert forall|d2: usize| #[trigger] e2.live(d2) implies row_wf(
                        e2.row_of(d2),
                        e2.field_names@.len() as int,
                    ) by {
                        assert(e0.live(d2) && e0.row_of(d2) == e2.row_of(d2));
                    }
                    // postings: sound and complete for the new rows
                    assert forall|t: Seq<char>, f: usize, d2: usize, p: usize|
                        d2 != d implies (e2.derived_posting(t, f, d2, p) == e0.derived_posting(
                        t, f, d2, p)) by {}
                    assert forall|i: int|
                        0 <= i < e2.postings@.len() implies e2.derived_posting(
                        (#[trigger] e2.postings@[i]).term@,
                        e2.postings@[i].fid,
                        e2.postings@[i].doc,
                        e2.postings@[i].pos,
                    ) by {
                        let t = e2.postings@[i].term@;
                        let f = e2.postings@[i].fid;
                        let d2 = e2.postings@[i].doc;
                        let p = e2.postings@[i].pos;
                        assert(phas(e2.postings@, t, f, d2, p));
                        assert(phas(e0.postings@, t, f, d2, p) && d2 != d);
                        assert(e0.derived_posting(t, f, d2, p));
                    }
                    assert forall|t: Seq<char>, f: usize, d2: usize, p: usize|
                        #[trigger] e2.derived_posting(t, f, d2, p) implies e2.postings_has(
                        t, f, d2, p) by {
                        assert(d2 != d);
                        assert(e0.derived_posting(t, f, d2, p));
                    }
                    assert forall|f: usize, v: Seq<char>, d2: usize|
                        d2 != d implies (e2.derived_facet(f, v, d2) == e0.derived_facet(
                        f, v, d2)) by {}
                    assert forall|i: int|
                        0 <= i < e2.facets@.len() implies e2.derived_facet(
                        (#[trigger] e2.facets@[i]).fid,
                        e2.facets@[i].value@,
                        e2.facets@[i].doc,
                    ) by {
                        let f = e2.facets@[i].fid;
                        let v = e2.facets@[i].value@;
                        let d2 = e2.facets@[i].doc;
                        assert(fhas(e2.facets@, f, v, d2));
                        assert(fhas(e0.facets@, f, v, d2) && d2 != d);
                        assert(e0.derived_facet(f, v, d2));
                    }
                    assert forall|f: usize, v: Seq<char>, d2: usize|
                        #[trigger] e2.derived_facet(f, v, d2) implies e2.facets_has(f, v, d2) by {
                        assert(d2 != d);
                        assert(e0.derived_facet(f, v, d2));
                    }
                    // the abstract store loses exactly the key x
                    assert forall|y: Seq<char>| true implies (ext_index_of(ext2, y) >= 0 <==> (
                    ext_index_of(ext0, y) >= 0 && y != x@)) by {
                        lemma_ext_mem(ext2, y);
                        lemma_ext_mem(ext0, y);
                        if ext_index_of(ext2, y) >= 0 {
                            let j = choose|j: int| 0 <= j < ext2.len() && (#[trigger] ext2[j]).0@ == y;
                            let j0 = if j < k {
                                j
                            } else {
                                j + 1
                            };
                            assert(ext0[j0].0@ == y);
                            assert(j0 != k);
                            if y == x@ {
                                assert(ext0[j0].0@ == ext0[k as int].0@);
                                assert(false);
                            }
                        }
                        if ext_index_of(ext0, y) >= 0 && y != x@ {
                            let j0 = choose|j0: int|
                                0 <= j0 < ext0.len() && (#[trigger] ext0[j0]).0@ == y;
                            assert(j0 != k);
                            let j = if j0 < k {
                                j0
                            } else {
                                j0 - 1
                            };
                            assert(ext2[j].0@ == y);
                        }
                    }
                    assert forall|y: Seq<char>|
                        ext_index_of(ext2, y) >= 0 implies e2.row_named(
                        ext2[ext_index_of(ext2, y)].1,
                    ) == e0.row_named(ext0[ext_index_of(ext0, y)].1) by {
                        lemma_ext_mem(ext2, y);
                        lemma_ext_mem(ext0, y);
                        let j = ext_index_of(ext2, y);
                        let j0 = if j < k {
                            j
                        } else {
                            j + 1
                        };
                        assert(ext0[j0].0@ == y);
                        let i0 = ext_index_of(ext0, y);
                        assert(ext0[i0].0@ == y);
                        assert(i0 == j0);
                        assert(ext2[j] == ext0[i0]);
                        assert(ext0[i0].1 != d);
                    }
                    assert(e2.abs() =~= e0.abs().remove(x@));
                }
            },
        }
    }

    /// Adds (or replaces) the document with external id `ext` and decoded
    /// fields `fields`: any previous document under that id is fully
    /// retracted first, then the row is stored and indexed.
    pub fn add_one(&mut self, fields: &Vec<(String, String)>, ext: &String)
        requires
            old(self).wf(),
            distinct_fields(fields@),
        ensures
            final(self).wf(),
            final(self).schema == old(self).schema,
            final(self).abs() == old(self).abs().insert(ext@, crate::json::pairs_view(fields@)),
            final(self).doc_count() == old(self).doc_count() + (
            if ext_index_of(old(self).ext_ids@, ext@) >= 0 {
                0int
            } else {
                1int
            }),
    {
        let ghost e0 = *self;
        let row = self.build_row(fields);
        let ghost e1 = *self;
        proof {
            // extending the field-id table changes no document and no index
            let oldlen = e0.field_names@.len() as int;
            assert forall|f: int| 0 <= f < oldlen implies e1.field_names@[f]
                == e0.field_names@[f] by {
                assert(e0.field_names@ =~= e1.field_names@.subrange(0, oldlen));
            }
            assert forall|d2: usize| #[trigger] e1.live(d2) implies row_wf(
                e1.row_of(d2),
                e1.field_names@.len() as int,
            ) && row_wf(e1.row_of(d2), oldlen) by {
                assert(e0.live(d2));
            }
            assert forall|t: Seq<char>, f: usize, d2: usize, p: usize|
                #![trigger e1.derived_posting(t, f, d2, p)]
                e1.derived_posting(t, f, d2, p) == e0.derived_posting(t, f, d2, p) by {
                if f < oldlen {
                    assert(e1.field_names@[f as int] == e0.field_names@[f as int]);
                } else {
                    if e1.derived_posting(t, f, d2, p) {
                        lemma_row_value_none_above(e1.row_of(d2), f, oldlen);
                    }
                }
            }
            assert forall|f: usize, v: Seq<char>, d2: usize|
                #![trigger e1.derived_facet(f, v, d2)]
                e1.derived_facet(f, v, d2) == e0.derived_facet(f, v, d2) by {
                if f < oldlen {
                    assert(e1.field_names@[f as int] == e0.field_names@[f as int]);
                } else {
                    if e1.derived_facet(f, v, d2) {
                        lemma_row_value_none_above(e1.row_of(d2), f, oldlen);
                    }
                }
            }
            assert(e1.wf());
            assert forall|d2: usize| #[trigger] e1.live(d2) implies e1.row_named(d2)
                == e0.row_named(d2) by {
                assert(e0.live(d2));
                assert(e1.row_named(d2) =~= e0.row_named(d2));
            }
            assert forall|y: Seq<char>|
                ext_index_of(e0.ext_ids@, y) >= 0 implies e1.row_named(
                e1.ext_ids@[ext_index_of(e1.ext_ids@, y)].1,
            ) == e0.row_named(e0.ext_ids@[ext_index_of(e0.ext_ids@, y)].1) by {
                lemma_ext_mem(e0.ext_ids@, y);
                let idx = ext_index_of(e0.ext_ids@, y);
                assert(e0.live(e0.ext_ids@[idx].1));
                assert(e1.live(e0.ext_ids@[idx].1));
            }
            assert(e1.abs() =~= e0.abs());
        }
        let ko = self.find_ext(ext);
        match ko {
            Some(k) => {
                let d = self.ext_ids[k].1;
                self.retract_doc(d);
                self.rows.set(d, Some(row));
                let ghost e3 = *self;
                proof {
                    assert forall|i: int|
                        0 <= i < e3.postings@.len() implies (#[trigger] e3.postings@[i]).doc
                        != d by {
                        let t = e3.postings@[i].term@;
                        let f = e3.postings@[i].fid;
                        let d2 = e3.postings@[i].doc;
                        let p = e3.postings@[i].pos;
                        assert(phas(e3.postings@, t, f, d2, p));
                    }
                    assert forall|i: int|
                        0 <= i < e3.facets@.len() implies (#[trigger] e3.facets@[i]).doc != d by {
                        let f = e3.facets@[i].fid;
                        let v = e3.facets@[i].value@;
                        let d2 = e3.facets@[i].doc;
                        assert(fhas(e3.facets@, f, v, d2));
                    }
                    assert(e3.live(d));
                    assert(row_wf(e3.row_of(d), e3.field_names@.len() as int));
                }
                self.insert_doc_index(d);
                proof {
                    let e4 = *self;
                    lemma_ext_mem(e1.ext_ids@, ext@);
                    assert(e1.ext_ids@[k as int].0@ == ext@);
                    assert(e1.ext_ids@[k as int].1 == d);
                    lemma_wf_after_insert(e1, e3, e4, d);
                    assert forall|j: int|
                        0 <= j < e4.ext_ids@.len() implies e4.live(
                        #[trigger] e4.ext_ids@[j].1,
                    ) by {
                        if e4.ext_ids@[j].1 != d {
                            assert(e1.live(e1.ext_ids@[j].1));
                        }
                    }
                    assert forall|d2: int|
                        0 <= d2 < e4.rows@.len() && e4.rows@[d2] is Some implies exists|j: int|
                        0 <= j < e4.ext_ids@.len() && (#[trigger] e4.ext_ids@[j]).1 == d2 by {
                        if d2 == d {
                            assert(e4.ext_ids@[k as int].1 == d2);
                        } else {
                            assert(e1.rows@[d2] is Some);
                        }
                    }
                    assert forall|d2: usize| #[trigger] e4.live(d2) implies row_wf(
                        e4.row_of(d2),
                        e4.field_names@.len() as int,
                    ) by {
                        if d2 != d {
                            assert(e1.live(d2));
                            assert(e4.row_of(d2) == e1.row_of(d2));
                        }
                    }
                    assert(e4.wf());
                    // the abstract store gains exactly the binding ext -> fields
                    assert(e4.row_named(d) =~= crate::json::pairs_view(fields@));
                    assert forall|y: Seq<char>|
                        ext_index_of(e4.ext_ids@, y) >= 0 && y != ext@ implies e4.row_named(
                        e4.ext_ids@[ext_index_of(e4.ext_ids@, y)].1,
                    ) == e1.row_named(e1.ext_ids@[ext_index_of(e1.ext_ids@, y)].1) by {
                        lemma_ext_mem(e4.ext_ids@, y);
                        let j = ext_index_of(e4.ext_ids@, y);
                        if e4.ext_ids@[j].1 == d {
                            assert(e4.ext_ids@[j] == e1.ext_ids@[j]);
                            assert(j == k);
                            assert(false);
                        }
                        assert(e4.row_named(e4.ext_ids@[j].1) =~= e1.row_named(
                            e1.ext_ids@[j].1,
                        ));
                    }
                    assert(ext_index_of(e4.ext_ids@, ext@) == k);
                    assert(e4.abs() =~= e1.abs().insert(ext@, crate::json::pairs_view(fields@)));
                    assert(e1.abs() == e0.abs());
                }
            },
            None => {
                proof {
                    crate::engine::lemma_ext_index_from(e1.ext_ids@, ext@, 0);
                }
                let d = self.rows.len();
                self.rows.push(Some(row));
                self.ext_ids.push((ext.clone(), d));
                let ghost e3 = *self;
                proof {
                    assert forall|i: int|
                        0 <= i < e3.postings@.len() implies (#[trigger] e3.postings@[i]).doc
                        != d by {
                        assert(e1.derived_posting(
                            e1.postings@[i].term@,
                            e1.postings@[i].fid,
                            e1.postings@[i].doc,
                            e1.postings@[i].pos,
                        ));
                    }
                    assert forall|i: int|
                        0 <= i < e3.facets@.len() implies (#[trigger] e3.facets@[i]).doc != d by {
                        assert(e1.derived_facet(
                            e1.facets@[i].fid,
                            e1.facets@[i].value@,
                            e1.facets@[i].doc,
                        ));
                    }
                    assert(e3.live(d));
                    assert(e3.row_of(d) == row@);
                    assert(e3.wf_table());
                    assert(row_wf(e3.row_of(d), e3.field_names@.len() as int));
                }
                self.insert_doc_index(d);
                proof {
                    let e4 = *self;
                    let oldn = e1.ext_ids@.len() as int;
                    lemma_wf_after_insert(e1, e3, e4, d);
                    assert forall|j: int|
                        0 <= j < oldn implies (#[trigger] e1.ext_ids@[j]).0@ != ext@ && e1.live(
                        e1.ext_ids@[j].1,
                    ) && e4.ext_ids@[j] == e1.ext_ids@[j] by {}
                    assert forall|k1: int, k2: int|
                        0 <= k1 < k2 < e4.ext_ids@.len() implies e4.ext_ids@[k1].0@
                        != e4.ext_ids@[k2].0@ && e4.ext_ids@[k1].1 != e4.ext_ids@[k2].1 by {
                        if k2 == oldn {
                            assert(e1.live(e1.ext_ids@[k1].1));
                            assert(e1.ext_ids@[k1].1 < d);
                        }
                    }
                    assert forall|j: int|
                        0 <= j < e4.ext_ids@.len() implies e4.live(
                        #[trigger] e4.ext_ids@[j].1,
                    ) by {
                        if j < oldn {
                            assert(e1.live(e1.ext_ids@[j].1));
                            assert(e1.ext_ids@[j].1 < d);
                        }
                    }
                    assert forall|d2: int|
                        0 <= d2 < e4.rows@.len() && e4.rows@[d2] is Some implies exists|j: int|
                        0 <= j < e4.ext_ids@.len() && (#[trigger] e4.ext_ids@[j]).1 == d2 by {
                        if d2 == d {
                            assert(e4.ext_ids@[oldn].1 == d2);
                        } else {
                            assert(e1.rows@[d2] is Some);
                            let j = choose|j: int|
                                0 <= j < e1.ext_ids@.len() && (#[trigger] e1.ext_ids@[j]).1 == d2;
                            assert(e4.ext_ids@[j].1 == d2);
                        }
                    }
                    assert forall|d2: usize| #[trigger] e4.live(d2) implies row_wf(
                        e4.row_of(d2),
                        e4.field_names@.len() as int,
                    ) by {
                        if d2 != d {
                            assert(e1.live(d2));
                            assert(e4.row_of(d2) == e1.row_of(d2));
                        }
                    }
                    assert(e4.wf());
                    // the new binding sits at the end of the mapping
                    crate::engine::lemma_ext_index_from(e4.ext_ids@, ext@, 0);
                    let ie = ext_index_of(e4.ext_ids@, ext@);
                    assert(e4.ext_ids@[oldn].0@ == ext@);
                    lemma_ext_mem(e4.ext_ids@, ext@);
                    assert(ie >= 0);
                    if ie < oldn {
                        assert(e1.ext_ids@[ie].0@ == ext@);
                        assert(false);
                    }
                    assert(ie == oldn);
                    assert(e4.row_named(d) =~= crate::json::pairs_view(fields@));
                    assert forall|y: Seq<char>| y != ext@ implies (ext_index_of(e4.ext_ids@, y) >= 0
                        <==> ext_index_of(e1.ext_ids@, y) >= 0) by {
                        lemma_ext_mem(e4.ext_ids@, y);
                        lemma_ext_mem(e1.ext_ids@, y);
                        if ext_index_of(e4.ext_ids@, y) >= 0 {
                            let j = choose|j: int|
                                0 <= j < e4.ext_ids@.len() && (#[trigger] e4.ext_ids@[j]).0@ == y;
                            assert(j != oldn);
                            assert(e1.ext_ids@[j].0@ == y);
                        }
                        if ext_index_of(e1.ext_ids@, y) >= 0 {
                            let j = choose|j: int|
                                0 <= j < e1.ext_ids@.len() && (#[trigger] e1.ext_ids@[j]).0@ == y;
                            assert(e4.ext_ids@[j].0@ == y);
                        }
                    }
                    assert forall|y: Seq<char>|
                        ext_index_of(e4.ext_ids@, y) >= 0 && y != ext@ implies e4.row_named(
                        e4.ext_ids@[ext_index_of(e4.ext_ids@, y)].1,
                    ) == e1.row_named(e1.ext_ids@[ext_index_of(e1.ext_ids@, y)].1) by {
                        lemma_ext_mem(e4.ext_ids@, y);
                        lemma_ext_mem(e1.ext_ids@, y);
                        let j4 = ext_index_of(e4.ext_ids@, y);
                        let j1 = ext_index_of(e1.ext_ids@, y);
                        assert(j4 != oldn);
                        assert(e1.ext_ids@[j4].0@ == y);
                        assert(j1 == j4);
                        assert(e1.live(e1.ext_ids@[j1].1));
                        assert(e1.ext_ids@[j1].1 < d);
                        assert(e4.row_named(e4.ext_ids@[j4].1) =~= e1.row_named(
                            e1.ext_ids@[j1].1,
                        ));
                    }
                    assert(e4.abs() =~= e1.abs().insert(ext@, crate::json::pairs_view(fields@)));
                    assert(e1.abs() == e0.abs());
                }
            },
        }
    }

    /// Applies one mutation batch: the removals first, then the additions, as
    /// one atomic unit.  If any document of the batch is malformed or lacks
    /// the `id` field, the whole batch is rejected with `ParseError` and the
    /// engine is left exactly as it was — the removals too are discarded.
    /// On success returns (documents added or updated, total document count).
    pub fn mutate(&mut self, add_documents: &Vec<String>, remove_ids: &Vec<String>) -> (r: Result<
        (u64, u64),
        EngineError,
    >)
        requires
            old(self).wf(),
        ensures
            final(self).wf(),
            final(self).schema == old(self).schema,
            r is Ok <==> crate::json::batch_ok(add_documents@),
            r is Err ==> r->Err_0 == EngineError::ParseError && *final(self) == *old(self),
            r is Ok ==> final(self).abs() == spec_mutate(
                old(self).abs(),
                remove_ids@.map_values(|s: String| s@),
                add_documents@,
            ),
            r is Ok ==> r->Ok_0.0 as nat == add_documents@.len() && r->Ok_0.1 as nat == final(self).doc_count(),
    {
        let ghost e0 = *self;
        let mut parsed: Vec<(Vec<(String, String)>, String)> = Vec::new();
        let id_name: String = "id".to_owned();
        let mut i: usize = 0;
        while i < add_documents.len()
            invariant
                i <= add_documents@.len(),
                parsed@.len() == i,
                id_name@ == "id"@,
                *self == e0,
                e0 == *old(self),
                self.wf(),
                forall|j: int|
                    0 <= j < i ==> (#[trigger] crate::json::doc_parse(add_documents@[j]@)) is Some,
                forall|j: int|
                    0 <= j < i ==> crate::json::pairs_view((#[trigger] parsed@[j]).0@)
                        == crate::json::doc_parse(add_documents@[j]@)->Some_0.0 && parsed@[j].1@
                        == crate::json::doc_parse(add_documents@[j]@)->Some_0.1 && distinct_fields(
                        parsed@[j].0@,
                    ),
            decreases add_documents@.len() - i,
        {
            let po = crate::json::parse_json_object(add_documents[i].as_str());
            match po {
                None => {
                    proof {
                        assert(crate::json::doc_parse(add_documents@[i as int]@) is None);
                    }
                    return Err(EngineError::ParseError);
                },
                Some(fields) => {
                    let jo = crate::json::fields_find(&fields, &id_name);
                    match jo {
                        None => {
                            proof {
                                assert(crate::json::pairs_view(fields@) == crate::json::json_fields_of(
                                    add_documents@[i as int]@,
                                )->Some_0);
                                assert(crate::json::doc_parse(add_documents@[i as int]@) is None);
                            }
                            return Err(EngineError::ParseError);
                        },
                        Some(j) => {
                            let ext = fields[j].1.clone();
                            proof {
                                let fsv = crate::json::json_fields_of(add_documents@[i as int]@);
                                assert(crate::json::pairs_view(fields@) == fsv->Some_0);
                                assert forall|a: int, b: int|
                                    0 <= a < b < fields@.len() implies fields@[a].0@
                                    != fields@[b].0@ by {
                                    assert(crate::json::pairs_view(fields@)[a].0 == fields@[a].0@);
                                    assert(crate::json::pairs_view(fields@)[b].0 == fields@[b].0@);
                                }
                            }
                            parsed.push((fields, ext));
                        },
                    }
                },
            }
            i += 1;
        }
        let ghost removes = remove_ids@.map_values(|s: String| s@);
        let mut i: usize = 0;
        while i < remove_ids.len()
            invariant
                i <= remove_ids@.len(),
                self.wf(),
                self.schema == e0.schema,
                e0.wf(),
                e0 == *old(self),
                removes == remove_ids@.map_values(|s: String| s@),
                self.abs() == apply_removes(e0.abs(), removes.subrange(0, i as int)),
            decreases remove_ids@.len() - i,
        {
            let ghost before = self.abs();
            self.remove_one(&remove_ids[i]);
            proof {
                assert(removes.subrange(0, i + 1).drop_last() =~= removes.subrange(0, i as int));
                assert(removes.subrange(0, i + 1).last() == remove_ids@[i as int]@);
                assert(self.abs() == apply_removes(e0.abs(), removes.subrange(0, i + 1)));
            }
            i += 1;
        }
        proof {
            assert(removes.subrange(0, removes.len() as int) =~= removes);
        }
        let ghost m_r = self.abs();
        let ghost pdocs = parsed_docs(add_documents@);
        let mut i: usize = 0;
        while i < parsed.len()
            invariant
                i <= parsed@.len(),
                parsed@.len() == add_documents@.len(),
                self.wf(),
                self.schema == e0.schema,
                e0 == *old(self),
                pdocs == parsed_docs(add_documents@),
                pdocs.len() == parsed@.len(),
                forall|j: int|
                    0 <= j < parsed@.len() ==> (#[trigger] crate::json::doc_parse(
                        add_documents@[j]@,
                    )) is Some,
                forall|j: int|
                    0 <= j < parsed@.len() ==> crate::json::pairs_view((#[trigger] parsed@[j]).0@)
                        == pdocs[j].0 && parsed@[j].1@ == pdocs[j].1 && distinct_fields(
                        parsed@[j].0@,
                    ),
                self.abs() == apply_adds(m_r, pdocs.subrange(0, i as int)),
            decreases parsed@.len() - i,
        {
            self.add_one(&parsed[i].0, &parsed[i].1);
            proof {
                assert(pdocs.subrange(0, i + 1).drop_last() =~= pdocs.subrange(0, i as int));
                assert(pdocs.subrange(0, i + 1).last() == pdocs[i as int]);
                assert(self.abs() == apply_adds(m_r, pdocs.subrange(0, i + 1)));
            }
            i += 1;
        }
        proof {
            assert(pdocs.subrange(0, pdocs.len() as int) =~= pdocs);
        }
        let added = add_documents.len() as u64;
        let total = self.ext_ids.len() as u64;
        Ok((added, total))
    }
}

} // verus!
