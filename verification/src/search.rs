use vstd::prelude::*;
use crate::engine::{Engine, row_wf};
use crate::errors::EngineError;
use crate::schema::{has_name, find_name};
use crate::text::{tokenize, tokens_of, toks_view};
use crate::rank::{doc_matches_all, stages_out, stage_rank, term_match_exec, doc_matches_term};
use crate::json::pairs_view;

verus! {

/// The live internal ids below `n`, in ascending order.
pub open spec fn universe_ids(e: Engine, n: int) -> Seq<usize>
    decreases n,
{
    if n <= 0 {
        Seq::empty()
    } else {
        universe_ids(e, n - 1) + if e.rows@[n - 1] is Some {
            seq![(n - 1) as usize]
        } else {
            Seq::empty()
        }
    }
}

/// The members of the universe that match all of the first `k` terms.
pub open spec fn matching_cands(e: Engine, uni: Seq<usize>, terms: Seq<Seq<char>>, k: int)
    -> Seq<usize>
    decreases uni.len(),
{
    if uni.len() == 0 {
        Seq::empty()
    } else {
        matching_cands(e, uni.drop_last(), terms, k) + if doc_matches_all(e, uni.last(), terms, k) {
            seq![uni.last()]
        } else {
            Seq::empty()
        }
    }
}

/// The `Last` terms-matching strategy: drop trailing terms until some
/// document matches all remaining ones, stopping at a single term.
pub open spec fn relaxed_k(e: Engine, uni: Seq<usize>, terms: Seq<Seq<char>>, k: int) -> int
    decreases k,
{
    if k <= 1 {
        1
    } else if matching_cands(e, uni, terms, k).len() > 0 {
        k
    } else {
        relaxed_k(e, uni, terms, k - 1)
    }
}

/// The `[offset, offset+limit)` slice; offsets past the end give nothing.
pub open spec fn page(s: Seq<usize>, offset: int, limit: int) -> Seq<usize> {
    if offset >= s.len() || offset < 0 || limit < 0 {
        Seq::empty()
    } else if offset + limit <= s.len() {
        s.subrange(offset, offset + limit)
    } else {
        s.subrange(offset, s.len() as int)
    }
}

/// The requested fields of one row, in storage order: entries whose field
/// name is among `names`, as (name, value) text pairs.
pub open spec fn proj_row(e: Engine, row: Seq<(usize, String)>, names: Seq<String>) -> Seq<
    (Seq<char>, Seq<char>),
>
    decreases row.len(),
{
    if row.len() == 0 {
        Seq::empty()
    } else {
        proj_row(e, row.drop_last(), names) + if row.last().0 < e.field_names@.len() && has_name(
            names,
            e.field_names@[row.last().0 as int]@,
        ) {
            seq![(e.field_names@[row.last().0 as int]@, row.last().1@)]
        } else {
            Seq::empty()
        }
    }
}

/// The terms the ranking stages run on: the query's tokens after relaxation.
pub open spec fn kept_terms(e: Engine, q: Seq<char>) -> Seq<Seq<char>> {
    let terms = tokens_of(q);
    let uni = universe_ids(e, e.rows@.len() as int);
    if terms.len() == 0 {
        Seq::empty()
    } else {
        terms.subrange(0, relaxed_k(e, uni, terms, terms.len() as int))
    }
}

/// The candidate set a query starts from: the whole universe for a blank
/// query, else the universe members matching all kept terms.
pub open spec fn query_cands(e: Engine, q: Seq<char>) -> Seq<usize> {
    let terms = tokens_of(q);
    let uni = universe_ids(e, e.rows@.len() as int);
    if terms.len() == 0 {
        uni
    } else {
        matching_cands(e, uni, terms, relaxed_k(e, uni, terms, terms.len() as int))
    }
}

/// The ordered document ids a query returns: candidates ranked by all
/// criteria stages in schema order, then paginated.
pub open spec fn search_ids(e: Engine, q: Seq<char>, offset: int, limit: int) -> Seq<usize> {
    page(
        stages_out(e, kept_terms(e, q), e.schema.criteria@, query_cands(e, q), e.schema.criteria@.len() as int),
        offset,
        limit,
    )
}

impl Engine {
    /// All live internal ids, in ascending order: the match-all universe.
    pub fn universe(&self) -> (r: Vec<usize>)
        requires
            self.wf(),
        ensures
            r@ == universe_ids(*self, self.rows@.len() as int),
            forall|i: int| 0 <= i < r@.len() ==> self.live(#[trigger] r@[i]),
    {
        let mut out: Vec<usize> = Vec::new();
        let mut d: usize = 0;
        while d < self.rows.len()
            invariant
                d <= self.rows@.len(),
                out@ == universe_ids(*self, d as int),
                forall|i: int| 0 <= i < out@.len() ==> self.live(#[trigger] out@[i]),
            decreases self.rows@.len() - d,
        {
            let is_live = match &self.rows[d] {
                Some(_) => true,
                None => false,
            };
            if is_live {
                out.push(d);
            }
            d += 1;
        }
        out
    }

    /// Does `d` match all of the first `k` terms?
    pub fn matches_all_exec(&self, d: usize, terms: &Vec<Vec<char>>, k: usize) -> (r: bool)
        requires
            self.wf(),
            k <= terms@.len(),
        ensures
            r == doc_matches_all(*self, d, toks_view(terms@), k as int),
    {
        let mut j: usize = 0;
        while j < k
            invariant
                j <= k <= terms@.len(),
                self.wf(),
                forall|jj: int|
                    0 <= jj < j ==> doc_matches_term(*self, d, #[trigger] toks_view(terms@)[jj]),
            decreases k - j,
        {
            let r = term_match_exec(self, d, &terms[j]);
            proof {
                assert(toks_view(terms@)[j as int] == terms@[j as int]@);
            }
            if !r.0 {
                return false;
            }
            j += 1;
        }
        true
    }

    /// The universe members matching all of the first `k` terms, in order.
    pub fn match_filter(&self, uni: &Vec<usize>, terms: &Vec<Vec<char>>, k: usize) -> (r: Vec<
        usize,
    >)
        requires
            self.wf(),
            k <= terms@.len(),
            forall|i: int| 0 <= i < uni@.len() ==> self.live(#[trigger] uni@[i]),
        ensures
            r@ == matching_cands(*self, uni@, toks_view(terms@), k as int),
            forall|i: int| 0 <= i < r@.len() ==> self.live(#[trigger] r@[i]),
    {
        let mut out: Vec<usize> = Vec::new();
        let mut i: usize = 0;
        while i < uni.len()
            invariant
                i <= uni@.len(),
                self.wf(),
                k <= terms@.len(),
                forall|ii: int| 0 <= ii < uni@.len() ==> self.live(#[trigger] uni@[ii]),
                forall|ii: int| 0 <= ii < out@.len() ==> self.live(#[trigger] out@[ii]),
                out@ == matching_cands(*self, uni@.subrange(0, i as int), toks_view(terms@), k as int),
            decreases uni@.len() - i,
        {
            let m = self.matches_all_exec(uni[i], terms, k);
            proof {
                assert(uni@.subrange(0, i + 1).drop_last() =~= uni@.subrange(0, i as int));
                assert(uni@.subrange(0, i + 1).last() == uni@[i as int]);
            }
            if m {
                out.push(uni[i]);
            }
            i += 1;
        }
        proof {
            assert(uni@.subrange(0, uni@.len() as int) =~= uni@);
        }
        out
    }

    /// Applies the `Last` relaxation strategy: returns the kept term count
    /// and the matching candidates.
    pub fn relax(&self, uni: &Vec<usize>, terms: &Vec<Vec<char>>) -> (r: (Vec<usize>, usize))
        requires
            self.wf(),
            terms@.len() >= 1,
            forall|i: int| 0 <= i < uni@.len() ==> self.live(#[trigger] uni@[i]),
        ensures
            1 <= r.1 <= terms@.len(),
            r.1 as int == relaxed_k(*self, uni@, toks_view(terms@), terms@.len() as int),
            r.0@ == matching_cands(*self, uni@, toks_view(terms@), r.1 as int),
            forall|i: int| 0 <= i < r.0@.len() ==> self.live(#[trigger] r.0@[i]),
    {
        let ghost tv = toks_view(terms@);
        let mut k: usize = terms.len();
        loop
            invariant
                1 <= k <= terms@.len(),
                self.wf(),
                tv == toks_view(terms@),
                forall|i: int| 0 <= i < uni@.len() ==> self.live(#[trigger] uni@[i]),
                relaxed_k(*self, uni@, tv, terms@.len() as int) == relaxed_k(
                    *self,
                    uni@,
                    tv,
                    k as int,
                ),
            ensures
                1 <= k <= terms@.len(),
                k as int == relaxed_k(*self, uni@, tv, terms@.len() as int),
            decreases k,
        {
            let c = self.match_filter(uni, terms, k);
            if c.len() > 0 || k == 1 {
                proof {
                    assert(relaxed_k(*self, uni@, tv, k as int) == k as int);
                }
                break;
            }
            k -= 1;
        }
        let c = self.match_filter(uni, terms, k);
        (c, k)
    }

    /// Runs every criterion stage in schema order over the candidates.
    pub fn apply_pipeline(&self, cands: Vec<usize>, terms: &Vec<Vec<char>>) -> (r: Vec<usize>)
        requires
            self.wf(),
            forall|i: int| 0 <= i < cands@.len() ==> self.live(#[trigger] cands@[i]),
        ensures
            r@ == stages_out(
                *self,
                toks_view(terms@),
                self.schema.criteria@,
                cands@,
                self.schema.criteria@.len() as int,
            ),
            forall|i: int| 0 <= i < r@.len() ==> self.live(#[trigger] r@[i]),
    {
        let ghost tv = toks_view(terms@);
        let ghost cands0 = cands@;
        let mut cur = cands;
        let mut i: usize = 0;
        while i < self.schema.criteria.len()
            invariant
                i <= self.schema.criteria@.len(),
                self.wf(),
                tv == toks_view(terms@),
                cur@ == stages_out(*self, tv, self.schema.criteria@, cands0, i as int),
                forall|ii: int| 0 <= ii < cur@.len() ==> self.live(#[trigger] cur@[ii]),
            decreases self.schema.criteria@.len() - i,
        {
            cur = stage_rank(self, &cur, terms, self.schema.criteria[i]);
            i += 1;
        }
        cur
    }

    /// Extracts the `[offset, offset+limit)` slice of the ranking.
    pub fn page_exec(&self, ids: Vec<usize>, offset: usize, limit: usize) -> (r: Vec<usize>)
        ensures
            r@ == page(ids@, offset as int, limit as int),
    {
        let mut out: Vec<usize> = Vec::new();
        if offset >= ids.len() {
            proof {
                assert(out@ =~= page(ids@, offset as int, limit as int));
            }
            return out;
        }
        let mut i: usize = offset;
        while i < ids.len() && i - offset < limit
            invariant
                offset <= i <= ids@.len(),
                i - offset <= limit,
                out@ == ids@.subrange(offset as int, i as int),
            decreases ids@.len() - i,
        {
            out.push(ids[i]);
            proof {
                assert(out@ =~= ids@.subrange(offset as int, i + 1));
            }
            i += 1;
        }
        proof {
            assert(out@ =~= page(ids@, offset as int, limit as int));
        }
        out
    }

    /// Decodes the rows of the given documents and projects the requested
    /// fields, in ranking order.
    pub fn project_ids(&self, ids: &Vec<usize>, names: &Vec<String>) -> (r: Vec<
        Vec<(String, String)>,
    >)
        requires
            self.wf(),
            forall|i: int| 0 <= i < ids@.len() ==> self.live(#[trigger] ids@[i]),
        ensures
            r@.len() == ids@.len(),
            forall|i: int|
                0 <= i < r@.len() ==> pairs_view(#[trigger] r@[i]@) == proj_row(
                    *self,
                    self.row_of(ids@[i]),
                    names@,
                ),
    {
        let mut out: Vec<Vec<(String, String)>> = Vec::new();
        let mut i: usize = 0;
        while i < ids.len()
            invariant
                i <= ids@.len(),
                out@.len() == i,
                self.wf(),
                forall|ii: int| 0 <= ii < ids@.len() ==> self.live(#[trigger] ids@[ii]),
                forall|ii: int|
                    0 <= ii < i ==> pairs_view(#[trigger] out@[ii]@) == proj_row(
                        *self,
                        self.row_of(ids@[ii]),
                        names@,
                    ),
            decreases ids@.len() - i,
        {
            let d = ids[i];
            let mut fieldsv: Vec<(String, String)> = Vec::new();
            let rlen = match &self.rows[d] {
                Some(row) => row.len(),
                None => 0,
            };
            let mut j: usize = 0;
            while j < rlen
                invariant
                    j <= rlen,
                    self.wf(),
                    self.live(d),
                    rlen == self.row_of(d).len(),
                    pairs_view(fieldsv@) == proj_row(*self, self.row_of(d).subrange(0, j as int), names@),
                decreases rlen - j,
            {
                let mut pushed: Option<(String, String)> = None;
                match &self.rows[d] {
                    Some(row) => {
                        proof {
                            assert(row_wf(self.row_of(d), self.field_names@.len() as int));
                        }
                        let fid = row[j].0;
                        let fo = find_name(names, &self.field_names[fid]);
                        match fo {
                            Some(_) => {
                                pushed = Some((self.field_names[fid].clone(), row[j].1.clone()));
                            },
                            None => {},
                        }
                    },
                    None => {
                        proof {
                            assert(false);
                        }
                    },
                }
                proof {
                    assert(self.row_of(d).subrange(0, j + 1).drop_last() =~= self.row_of(
                        d,
                    ).subrange(0, j as int));
                    assert(self.row_of(d).subrange(0, j + 1).last() == self.row_of(d)[j as int]);
                }
                match pushed {
                    Some(p) => {
                        fieldsv.push(p);
                        proof {
                            assert(pairs_view(fieldsv@) =~= proj_row(
                                *self,
                                self.row_of(d).subrange(0, j + 1),
                                names@,
                            ));
                        }
                    },
                    None => {},
                }
                j += 1;
            }
            proof {
                assert(self.row_of(d).subrange(0, rlen as int) =~= self.row_of(d));
            }
            out.push(fieldsv);
            i += 1;
        }
        out
    }

    /// Runs a ranked, paginated query and projects the requested fields of
    /// each hit, best first.  A blank query matches every document, ordered
    /// by internal id.  A query never fails: no match gives an empty result.
    pub fn search(&self, query: &str, return_fields: &Vec<String>, offset: usize, limit: usize)
        -> (r: Vec<Vec<(String, String)>>)
        requires
            self.wf(),
        ensures
            r@.len() == search_ids(*self, query@, offset as int, limit as int).len(),
            forall|i: int|
                0 <= i < r@.len() ==> pairs_view(#[trigger] r@[i]@) == proj_row(
                    *self,
                    self.row_of(search_ids(*self, query@, offset as int, limit as int)[i]),
                    return_fields@,
                ),
    {
        let mut terms = tokenize(query);
        let uni = self.universe();
        let cands: Vec<usize>;
        if terms.len() == 0 {
            cands = uni;
        } else {
            let (c, k) = self.relax(&uni, &terms);
            cands = c;
            let ghost terms0 = terms@;
            proof {
                assert forall|ii: int|
                    0 <= ii < k implies toks_view(terms0.subrange(0, k as int))[ii] == toks_view(
                    terms0,
                ).subrange(0, k as int)[ii] by {
                    assert(toks_view(terms0.subrange(0, k as int))[ii] == terms0.subrange(
                        0,
                        k as int,
                    )[ii]@);
                }
                assert(toks_view(terms0.subrange(0, k as int)) =~= toks_view(terms0).subrange(
                    0,
                    k as int,
                ));
                assert(matching_cands(*self, uni@, toks_view(terms0), k as int) == query_cands(
                    *self,
                    query@,
                ));
            }
            terms.truncate(k);
            proof {
                assert(terms@ == terms0.subrange(0, k as int));
            }
        }
        proof {
            assert(toks_view(terms@) == kept_terms(*self, query@));
            assert(cands@ == query_cands(*self, query@));
        }
        let ranked = self.apply_pipeline(cands, &terms);
        let ids = self.page_exec(ranked, offset, limit);
        proof {
            assert(ids@ == search_ids(*self, query@, offset as int, limit as int));
            assert forall|i: int| 0 <= i < ids@.len() implies self.live(#[trigger] ids@[i]) by {
                let ranked_seq = stages_out(
                    *self,
                    kept_terms(*self, query@),
                    self.schema.criteria@,
                    query_cands(*self, query@),
                    self.schema.criteria@.len() as int,
                );
                assert(ids@[i] == ranked_seq[offset + i]);
            }
        }
        self.project_ids(&ids, return_fields)
    }

    /// The universe restricted by one facet predicate: the live documents
    /// whose filterable field `field` holds exactly `value`.  Fails with
    /// `ConfigError` when `field` is not filterable in the schema.
    pub fn facet_docs(&self, field: &String, value: &String) -> (r: Result<
        Vec<usize>,
        EngineError,
    >)
        requires
            self.wf(),
        ensures
            r is Ok <==> has_name(self.schema.filterable@, field@),
            r is Err ==> r->Err_0 == EngineError::ConfigError,
            r is Ok ==> ({
                let ids = r->Ok_0;
                forall|i: int|
                    0 <= i < ids@.len() ==> self.live(#[trigger] ids@[i]) && doc_has_facet(
                        *self,
                        ids@[i],
                        field@,
                        value@,
                    )
            }),
            r is Ok ==> forall|d: usize|
                #[trigger] doc_has_facet(*self, d, field@, value@) ==> r->Ok_0@.contains(d),
    {
        let fo = find_name(&self.schema.filterable, field);
        if fo.is_none() {
            return Err(EngineError::ConfigError);
        }
        let mut out: Vec<usize> = Vec::new();
        let mut i: usize = 0;
        while i < self.facets.len()
            invariant
                i <= self.facets@.len(),
                self.wf(),
                forall|ii: int|
                    0 <= ii < out@.len() ==> self.live(#[trigger] out@[ii]) && doc_has_facet(
                        *self,
                        out@[ii],
                        field@,
                        value@,
                    ),
                forall|j: int|
                    0 <= j < i && (#[trigger] self.facets@[j]).value@ == value@
                        && self.facets@[j].fid < self.field_names@.len()
                        && self.field_names@[self.facets@[j].fid as int]@ == field@
                        ==> out@.contains(self.facets@[j].doc),
            decreases self.facets@.len() - i,
        {
            let fc = &self.facets[i];
            proof {
                assert(self.derived_facet(
                    self.facets@[i as int].fid,
                    self.facets@[i as int].value@,
                    self.facets@[i as int].doc,
                ));
            }
            if crate::schema::string_eq(&self.field_names[fc.fid], field) && crate::schema::string_eq(
                &fc.value,
                value,
            ) {
                let ghost before = out@;
                out.push(fc.doc);
                proof {
                    assert(out@[out@.len() - 1] == self.facets@[i as int].doc);
                    assert forall|j: int|
                        0 <= j < i + 1 && (#[trigger] self.facets@[j]).value@ == value@
                            && self.facets@[j].fid < self.field_names@.len()
                            && self.field_names@[self.facets@[j].fid as int]@ == field@ implies out@.contains(
                        self.facets@[j].doc,
                    ) by {
                        if j < i {
                            let jj = choose|jj: int| 0 <= jj < before.len() && before[jj] == self.facets@[j].doc;
                            assert(out@[jj] == before[jj]);
                        }
                    }
                }
            } else {
                proof {
                    assert forall|j: int|
                        0 <= j < i + 1 && (#[trigger] self.facets@[j]).value@ == value@
                            && self.facets@[j].fid < self.field_names@.len()
                            && self.field_names@[self.facets@[j].fid as int]@ == field@ implies out@.contains(
                        self.facets@[j].doc,
                    ) by {}
                }
            }
            i += 1;
        }
        proof {
            assert forall|d: usize|
                #[trigger] doc_has_facet(*self, d, field@, value@) implies out@.contains(d) by {
                let f = choose|f: usize|
                    f < self.field_names@.len() && (#[trigger] self.field_names@[f as int])@
                        == field@ && self.derived_facet(f, value@, d);
                assert(self.facets_has(f, value@, d));
            }
        }
        Ok(out)
    }
}

impl Engine {
    /// The number of live documents in the store.
    pub fn total_document_count(&self) -> (n: u64)
        ensures
            n as nat == self.doc_count(),
    {
        self.ext_ids.len() as u64
    }

    /// Fetches the stored fields of the document under an external id, by
    /// name, in storage order.  Fails with `NotFound` for an unknown id.
    pub fn get_document(&self, ext: &String) -> (r: Result<Vec<(String, String)>, EngineError>)
        requires
            self.wf(),
        ensures
            r is Ok <==> self.abs().dom().contains(ext@),
            r is Err ==> r->Err_0 == EngineError::NotFound,
            r is Ok ==> pairs_view(r->Ok_0@) == self.abs()[ext@],
    {
        let ko = self.find_ext(ext);
        match ko {
            None => Err(EngineError::NotFound),
            Some(k) => {
                let d = self.ext_ids[k].1;
                let mut out: Vec<(String, String)> = Vec::new();
                let rlen = match &self.rows[d] {
                    Some(row) => row.len(),
                    None => 0,
                };
                let mut j: usize = 0;
                while j < rlen
                    invariant
                        j <= rlen,
                        self.wf(),
                        self.live(d),
                        rlen == self.row_of(d).len(),
                        out@.len() == j,
                        forall|a: int|
                            0 <= a < j ==> pairs_view(out@)[a] == (
                            self.field_names@[(#[trigger] self.row_of(d)[a]).0 as int]@,
                            self.row_of(d)[a].1@,
                            ),
                    decreases rlen - j,
                {
                    match &self.rows[d] {
                        Some(row) => {
                            proof {
                                assert(row_wf(self.row_of(d), self.field_names@.len() as int));
                                assert(self.row_of(d)[j as int].0 < self.field_names@.len());
                            }
                            let fid = row[j].0;
                            out.push((self.field_names[fid].clone(), row[j].1.clone()));
                            proof {
                                assert(pairs_view(out@)[j as int] == (
                                self.field_names@[self.row_of(d)[j as int].0 as int]@,
                                self.row_of(d)[j as int].1@,
                                ));
                            }
                        },
                        None => {
                            proof {
                                assert(false);
                            }
                        },
                    }
                    j += 1;
                }
                proof {
                    assert(pairs_view(out@) =~= self.row_named(d));
                }
                Ok(out)
            },
        }
    }

    /// The Result Materializer's public face: decodes each listed document
    /// and projects the requested fields.  Fails with `NotFound` exactly when
    /// some listed id is not (or no longer) a live document.
    pub fn project(&self, ids: &Vec<usize>, names: &Vec<String>) -> (r: Result<
        Vec<Vec<(String, String)>>,
        EngineError,
    >)
        requires
            self.wf(),
        ensures
            r is Ok <==> (forall|i: int| 0 <= i < ids@.len() ==> self.live(#[trigger] ids@[i])),
            r is Err ==> r->Err_0 == EngineError::NotFound,
            r is Ok ==> ({
                let out = r->Ok_0;
                out@.len() == ids@.len() && forall|i: int|
                    0 <= i < out@.len() ==> pairs_view(#[trigger] out@[i]@) == proj_row(
                        *self,
                        self.row_of(ids@[i]),
                        names@,
                    )
            }),
    {
        let mut i: usize = 0;
        while i < ids.len()
            invariant
                i <= ids@.len(),
                self.wf(),
                forall|ii: int| 0 <= ii < i ==> self.live(#[trigger] ids@[ii]),
            decreases ids@.len() - i,
        {
            let d = ids[i];
            let live = d < self.rows.len() && match &self.rows[d] {
                Some(_) => true,
                None => false,
            };
            if !live {
                return Err(EngineError::NotFound);
            }
            i += 1;
        }
        Ok(self.project_ids(ids, names))
    }
}

/// A soft wall-clock deadline for ranking: checked cooperatively between
/// criteria stages, never preempting one.
pub enum TimeBudget {
    Unlimited,
    Millis(u64),
}

/// Whether detailed per-candidate score breakdowns are computed alongside
/// the ordering.
#[derive(Clone, Copy, PartialEq, Eq, Structural)]
pub enum ScoringStrategy {
    Skip,
    Detailed,
}

/// Relies on std::time::SystemTime::now for a wall-clock reading in
/// milliseconds.  Nothing is promised of the value: the clock is not a
/// function of the program's state.
#[verifier::external_body]
fn now_millis() -> u64 {
    match std::time::SystemTime::now().duration_since(std::time::UNIX_EPOCH) {
        Ok(d) => d.as_millis() as u64,
        Err(_) => 0,
    }
}

impl Engine {
    /// Runs the criteria stages under a time budget: when the deadline has
    /// passed, the ranking achieved so far is returned instead of an error.
    /// Some prefix of the stages is always applied, and all of them under an
    /// unlimited budget.
    pub fn apply_pipeline_budgeted(
        &self,
        cands: Vec<usize>,
        terms: &Vec<Vec<char>>,
        budget: &TimeBudget,
    ) -> (r: Vec<usize>)
        requires
            self.wf(),
            forall|i: int| 0 <= i < cands@.len() ==> self.live(#[trigger] cands@[i]),
        ensures
            exists|n: int|
                0 <= n <= self.schema.criteria@.len() && r@ == #[trigger] stages_out(
                    *self,
                    toks_view(terms@),
                    self.schema.criteria@,
                    cands@,
                    n,
                ) && (budget is Unlimited ==> n == self.schema.criteria@.len()),
            forall|i: int| 0 <= i < r@.len() ==> self.live(#[trigger] r@[i]),
    {
        let limited: Option<u64> = match budget {
            TimeBudget::Unlimited => None,
            TimeBudget::Millis(ms) => Some(*ms),
        };
        let start = now_millis();
        let ghost tv = toks_view(terms@);
        let ghost cands0 = cands@;
        let mut cur = cands;
        let mut i: usize = 0;
        while i < self.schema.criteria.len()
            invariant
                i <= self.schema.criteria@.len(),
                self.wf(),
                tv == toks_view(terms@),
                budget is Unlimited ==> limited is None,
                cur@ == stages_out(*self, tv, self.schema.criteria@, cands0, i as int),
                forall|ii: int| 0 <= ii < cur@.len() ==> self.live(#[trigger] cur@[ii]),
            ensures
                0 <= i <= self.schema.criteria@.len(),
                cur@ == stages_out(*self, tv, self.schema.criteria@, cands0, i as int),
                budget is Unlimited ==> i == self.schema.criteria@.len(),
                forall|ii: int| 0 <= ii < cur@.len() ==> self.live(#[trigger] cur@[ii]),
            decreases self.schema.criteria@.len() - i,
        {
            match limited {
                Some(ms) => {
                    let now = now_millis();
                    let elapsed = if now >= start {
                        now - start
                    } else {
                        0
                    };
                    if elapsed > ms {
                        break;
                    }
                },
                None => {},
            }
            cur = stage_rank(self, &cur, terms, self.schema.criteria[i]);
            i += 1;
        }
        cur
    }

    /// `search` under an explicit time budget: the result is the ranking
    /// after some prefix of the criteria stages — all of them when the budget
    /// is unlimited or the deadline is met — paginated and projected.
    pub fn search_budgeted(
        &self,
        query: &str,
        return_fields: &Vec<String>,
        offset: usize,
        limit: usize,
        budget: &TimeBudget,
    ) -> (r: Vec<Vec<(String, String)>>)
        requires
            self.wf(),
        ensures
            exists|n: int|
                0 <= n <= self.schema.criteria@.len() && (budget is Unlimited ==> n
                    == self.schema.criteria@.len()) && ({
                    let ids = page(
                        #[trigger] stages_out(
                            *self,
                            kept_terms(*self, query@),
                            self.schema.criteria@,
                            query_cands(*self, query@),
                            n,
                        ),
                        offset as int,
                        limit as int,
                    );
                    r@.len() == ids.len() && forall|i: int|
                        0 <= i < r@.len() ==> pairs_view(#[trigger] r@[i]@) == proj_row(
                            *self,
                            self.row_of(ids[i]),
                            return_fields@,
                        )
                }),
    {
        let mut terms = tokenize(query);
        let uni = self.universe();
        let cands: Vec<usize>;
        if terms.len() == 0 {
            cands = uni;
        } else {
            let (c, k) = self.relax(&uni, &terms);
            cands = c;
            let ghost terms0 = terms@;
            proof {
                assert forall|ii: int|
                    0 <= ii < k implies toks_view(terms0.subrange(0, k as int))[ii] == toks_view(
                    terms0,
                ).subrange(0, k as int)[ii] by {
                    assert(toks_view(terms0.subrange(0, k as int))[ii] == terms0.subrange(
                        0,
                        k as int,
                    )[ii]@);
                }
                assert(toks_view(terms0.subrange(0, k as int)) =~= toks_view(terms0).subrange(
                    0,
                    k as int,
                ));
            }
            terms.truncate(k);
        }
        proof {
            assert(toks_view(terms@) == kept_terms(*self, query@));
            assert(cands@ == query_cands(*self, query@));
        }
        let ranked = self.apply_pipeline_budgeted(cands, &terms, budget);
        let ghost n = choose|n: int|
            0 <= n <= self.schema.criteria@.len() && ranked@ == #[trigger] stages_out(
                *self,
                toks_view(terms@),
                self.schema.criteria@,
                query_cands(*self, query@),
                n,
            ) && (budget is Unlimited ==> n == self.schema.criteria@.len());
        let ids = self.page_exec(ranked, offset, limit);
        proof {
            assert forall|i: int| 0 <= i < ids@.len() implies self.live(#[trigger] ids@[i]) by {
                let full = stages_out(
                    *self,
                    kept_terms(*self, query@),
                    self.schema.criteria@,
                    query_cands(*self, query@),
                    n,
                );
                assert(ids@[i] == full[offset + i]);
            }
        }
        self.project_ids(&ids, return_fields)
    }

    /// `search` with a scoring strategy: under `Skip` only the ordering is
    /// computed; under `Detailed` each hit also carries its per-criterion
    /// rank keys, in schema stage order (lower is better).
    pub fn search_with_scores(
        &self,
        query: &str,
        return_fields: &Vec<String>,
        offset: usize,
        limit: usize,
        scoring: ScoringStrategy,
    ) -> (r: (Vec<Vec<(String, String)>>, Option<Vec<Vec<u64>>>))
        requires
            self.wf(),
        ensures
            r.0@.len() == search_ids(*self, query@, offset as int, limit as int).len(),
            forall|i: int|
                0 <= i < r.0@.len() ==> pairs_view(#[trigger] r.0@[i]@) == proj_row(
                    *self,
                    self.row_of(search_ids(*self, query@, offset as int, limit as int)[i]),
                    return_fields@,
                ),
            r.1 is Some <==> scoring is Detailed,
            r.1 is Some ==> ({
                let scores = r.1->Some_0;
                scores@.len() == r.0@.len() && forall|i: int, c: int|
                    0 <= i < scores@.len() && 0 <= c < self.schema.criteria@.len()
                        ==> (#[trigger] scores@[i]@[c]) as int == crate::rank::stage_key(
                        *self,
                        kept_terms(*self, query@),
                        self.schema.criteria@[c],
                        search_ids(*self, query@, offset as int, limit as int)[i],
                    ) && scores@[i]@.len() == self.schema.criteria@.len()
            }),
    {
        let mut terms = tokenize(query);
        let uni = self.universe();
        let cands: Vec<usize>;
        if terms.len() == 0 {
            cands = uni;
        } else {
            let (c, k) = self.relax(&uni, &terms);
            cands = c;
            let ghost terms0 = terms@;
            proof {
                assert forall|ii: int|
                    0 <= ii < k implies toks_view(terms0.subrange(0, k as int))[ii] == toks_view(
                    terms0,
                ).subrange(0, k as int)[ii] by {
                    assert(toks_view(terms0.subrange(0, k as int))[ii] == terms0.subrange(
                        0,
                        k as int,
                    )[ii]@);
                }
                assert(toks_view(terms0.subrange(0, k as int)) =~= toks_view(terms0).subrange(
                    0,
                    k as int,
                ));
            }
            terms.truncate(k);
        }
        proof {
            assert(toks_view(terms@) == kept_terms(*self, query@));
            assert(cands@ == query_cands(*self, query@));
        }
        let ranked = self.apply_pipeline(cands, &terms);
        let ids = self.page_exec(ranked, offset, limit);
        proof {
            assert(ids@ == search_ids(*self, query@, offset as int, limit as int));
            assert forall|i: int| 0 <= i < ids@.len() implies self.live(#[trigger] ids@[i]) by {
                let full = stages_out(
                    *self,
                    kept_terms(*self, query@),
                    self.schema.criteria@,
                    query_cands(*self, query@),
                    self.schema.criteria@.len() as int,
                );
                assert(ids@[i] == full[offset + i]);
            }
        }
        let hits = self.project_ids(&ids, return_fields);
        let detailed = match scoring {
            ScoringStrategy::Skip => false,
            ScoringStrategy::Detailed => true,
        };
        if !detailed {
            return (hits, None);
        }
        let mut scores: Vec<Vec<u64>> = Vec::new();
        let mut i: usize = 0;
        while i < ids.len()
            invariant
                i <= ids@.len(),
                scores@.len() == i,
                self.wf(),
                toks_view(terms@) == kept_terms(*self, query@),
                forall|ii: int| 0 <= ii < ids@.len() ==> self.live(#[trigger] ids@[ii]),
                forall|ii: int, c: int|
                    0 <= ii < i && 0 <= c < self.schema.criteria@.len()
                        ==> (#[trigger] scores@[ii]@[c]) as int == crate::rank::stage_key(
                        *self,
                        kept_terms(*self, query@),
                        self.schema.criteria@[c],
                        ids@[ii],
                    ) && scores@[ii]@.len() == self.schema.criteria@.len(),
            decreases ids@.len() - i,
        {
            let s = self.score_details(ids[i], &terms);
            scores.push(s);
            i += 1;
        }
        proof {
            let sids = search_ids(*self, query@, offset as int, limit as int);
            assert(ids@ == sids);
            assert forall|i: int, c: int|
                0 <= i < scores@.len() && 0 <= c < self.schema.criteria@.len() implies (
            #[trigger] scores@[i]@[c]) as int == crate::rank::stage_key(
                *self,
                kept_terms(*self, query@),
                self.schema.criteria@[c],
                sids[i],
            ) && scores@[i]@.len() == self.schema.criteria@.len() by {
                assert(scores@[i]@[c] as int == crate::rank::stage_key(
                    *self,
                    kept_terms(*self, query@),
                    self.schema.criteria@[c],
                    ids@[i],
                ));
            }
            assert(hits@.len() == ids@.len());
            assert(scores@.len() == ids@.len());
        }
        (hits, Some(scores))
    }

    /// The per-criterion rank keys of one document, in schema stage order:
    /// the score breakdown the `Detailed` scoring strategy attaches.
    pub fn score_details(&self, d: usize, terms: &Vec<Vec<char>>) -> (r: Vec<u64>)
        requires
            self.wf(),
            self.live(d),
        ensures
            r@.len() == self.schema.criteria@.len(),
            forall|c: int|
                0 <= c < r@.len() ==> r@[c] as int == crate::rank::stage_key(
                    *self,
                    toks_view(terms@),
                    self.schema.criteria@[c],
                    d,
                ),
    {
        let mut out: Vec<u64> = Vec::new();
        let mut c: usize = 0;
        while c < self.schema.criteria.len()
            invariant
                c <= self.schema.criteria@.len(),
                out@.len() == c,
                self.wf(),
                self.live(d),
                forall|cc: int|
                    0 <= cc < c ==> out@[cc] as int == crate::rank::stage_key(
                        *self,
                        toks_view(terms@),
                        self.schema.criteria@[cc],
                        d,
                    ),
            decreases self.schema.criteria@.len() - c,
        {
            let k = crate::rank::stage_key_exec(self, terms, self.schema.criteria[c], d);
            out.push(k as u64);
            c += 1;
        }
        out
    }
}

/// Document `d` holds `value` in the filterable field named `field`.
pub open spec fn doc_has_facet(e: Engine, d: usize, field: Seq<char>, value: Seq<char>) -> bool {
    exists|f: usize|
        f < e.field_names@.len() && (#[trigger] e.field_names@[f as int])@ == field
            && e.derived_facet(f, value, d)
}

/// A boolean filter predicate over filterable fields.
pub enum Filter {
    /// The named filterable field holds exactly this value.
    Is(String, String),
    /// Both branches hold: the candidate sets intersect.
    And(Box<Filter>, Box<Filter>),
    /// Either branch holds: the candidate sets unite.
    Or(Box<Filter>, Box<Filter>),
}

/// Every field a filter names is filterable in the schema.
pub open spec fn filter_fields_ok(fl: Filter, filterable: Seq<String>) -> bool
    decreases fl,
{
    match fl {
        Filter::Is(n, _) => has_name(filterable, n@),
        Filter::And(a, b) => filter_fields_ok(*a, filterable) && filter_fields_ok(*b, filterable),
        Filter::Or(a, b) => filter_fields_ok(*a, filterable) && filter_fields_ok(*b, filterable),
    }
}

/// Whether document `d` satisfies the filter against the facet index.
pub open spec fn filter_eval(e: Engine, fl: Filter, d: usize) -> bool
    decreases fl,
{
    match fl {
        Filter::Is(n, v) => doc_has_facet(e, d, n@, v@),
        Filter::And(a, b) => filter_eval(e, *a, d) && filter_eval(e, *b, d),
        Filter::Or(a, b) => filter_eval(e, *a, d) || filter_eval(e, *b, d),
    }
}

/// The members of the universe that satisfy the filter, in order.
pub open spec fn filter_universe(e: Engine, fl: Filter, uni: Seq<usize>) -> Seq<usize>
    decreases uni.len(),
{
    if uni.len() == 0 {
        Seq::empty()
    } else {
        filter_universe(e, fl, uni.drop_last()) + if filter_eval(e, fl, uni.last()) {
            seq![uni.last()]
        } else {
            Seq::empty()
        }
    }
}

impl Engine {
    /// Does document `d` hold `value` in the filterable field named `name`?
    pub fn has_facet_exec(&self, d: usize, name: &String, value: &String) -> (r: bool)
        requires
            self.wf(),
        ensures
            r == doc_has_facet(*self, d, name@, value@),
    {
        let mut i: usize = 0;
        while i < self.facets.len()
            invariant
                i <= self.facets@.len(),
                self.wf(),
                forall|j: int|
                    0 <= j < i ==> !((#[trigger] self.facets@[j]).doc == d && self.facets@[j].value@
                        == value@ && self.facets@[j].fid < self.field_names@.len()
                        && self.field_names@[self.facets@[j].fid as int]@ == name@),
            decreases self.facets@.len() - i,
        {
            let fc = &self.facets[i];
            proof {
                assert(self.derived_facet(
                    self.facets@[i as int].fid,
                    self.facets@[i as int].value@,
                    self.facets@[i as int].doc,
                ));
            }
            if fc.doc == d && crate::schema::string_eq(&self.field_names[fc.fid], name)
                && crate::schema::string_eq(&fc.value, value) {
                return true;
            }
            i += 1;
        }
        proof {
            if doc_has_facet(*self, d, name@, value@) {
                let f = choose|f: usize|
                    f < self.field_names@.len() && (#[trigger] self.field_names@[f as int])@
                        == name@ && self.derived_facet(f, value@, d);
                assert(self.facets_has(f, value@, d));
            }
        }
        false
    }

    /// Whether `d` satisfies the filter.
    pub fn eval_filter(&self, fl: &Filter, d: usize) -> (r: bool)
        requires
            self.wf(),
        ensures
            r == filter_eval(*self, *fl, d),
        decreases *fl,
    {
        match fl {
            Filter::Is(n, v) => self.has_facet_exec(d, n, v),
            Filter::And(a, b) => self.eval_filter(a, d) && self.eval_filter(b, d),
            Filter::Or(a, b) => self.eval_filter(a, d) || self.eval_filter(b, d),
        }
    }

    /// Whether every field the filter names is filterable.
    pub fn check_filter(&self, fl: &Filter) -> (r: bool)
        ensures
            r == filter_fields_ok(*fl, self.schema.filterable@),
        decreases *fl,
    {
        match fl {
            Filter::Is(n, _) => find_name(&self.schema.filterable, n).is_some(),
            Filter::And(a, b) => self.check_filter(a) && self.check_filter(b),
            Filter::Or(a, b) => self.check_filter(a) && self.check_filter(b),
        }
    }

    /// The Universe Builder: with no predicate, all live ids; with one, the
    /// live ids satisfying it, evaluated against the facet index.  Fails with
    /// `ConfigError` exactly when the predicate names an unknown filterable
    /// field.
    pub fn build_universe(&self, filter: Option<&Filter>) -> (r: Result<Vec<usize>, EngineError>)
        requires
            self.wf(),
        ensures
            match filter {
                None => r is Ok && r->Ok_0@ == universe_ids(*self, self.rows@.len() as int),
                Some(fl) => {
                    &&& r is Ok <==> filter_fields_ok(*fl, self.schema.filterable@)
                    &&& r is Err ==> r->Err_0 == EngineError::ConfigError
                    &&& r is Ok ==> r->Ok_0@ == filter_universe(
                        *self,
                        *fl,
                        universe_ids(*self, self.rows@.len() as int),
                    )
                },
            },
            r is Ok ==> forall|i: int|
                0 <= i < r->Ok_0@.len() ==> self.live(#[trigger] r->Ok_0@[i]),
    {
        let uni = self.universe();
        match filter {
            None => Ok(uni),
            Some(fl) => {
                if !self.check_filter(fl) {
                    return Err(EngineError::ConfigError);
                }
                let mut out: Vec<usize> = Vec::new();
                let mut i: usize = 0;
                while i < uni.len()
                    invariant
                        i <= uni@.len(),
                        self.wf(),
                        forall|ii: int| 0 <= ii < uni@.len() ==> self.live(#[trigger] uni@[ii]),
                        forall|ii: int| 0 <= ii < out@.len() ==> self.live(#[trigger] out@[ii]),
                        out@ == filter_universe(*self, *fl, uni@.subrange(0, i as int)),
                    decreases uni@.len() - i,
                {
                    let keep = self.eval_filter(fl, uni[i]);
                    proof {
                        assert(uni@.subrange(0, i + 1).drop_last() =~= uni@.subrange(0, i as int));
                        assert(uni@.subrange(0, i + 1).last() == uni@[i as int]);
                    }
                    if keep {
                        out.push(uni[i]);
                    }
                    i += 1;
                }
                proof {
                    assert(uni@.subrange(0, uni@.len() as int) =~= uni@);
                }
                Ok(out)
            },
        }
    }
}

} // verus!
