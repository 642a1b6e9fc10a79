use vstd::prelude::*;
use crate::engine::Engine;
use crate::schema::{Criterion, has_name, string_eq, find_name};
use crate::text::{close_match, chars_eq, close_match_exec, tokens_of, tokenize, toks_view};
use crate::engine::{row_value, row_find};

verus! {

/// Document `d` matches query term `q`: some searchable field of `d` holds a
/// token that `q` matches under the typo rule.
pub open spec fn doc_matches_term(e: Engine, d: usize, q: Seq<char>) -> bool {
    exists|t: Seq<char>, f: usize, p: usize|
        #[trigger] e.derived_posting(t, f, d, p) && close_match(q, t)
}

/// Document `d` holds query term `q` exactly (no typo).
pub open spec fn doc_has_exact(e: Engine, d: usize, q: Seq<char>) -> bool {
    exists|f: usize, p: usize| #[trigger] e.derived_posting(q, f, d, p)
}

/// Document `d` matches every one of the first `k` terms.
pub open spec fn doc_matches_all(e: Engine, d: usize, terms: Seq<Seq<char>>, k: int) -> bool {
    forall|j: int| 0 <= j < k && j < terms.len() ==> doc_matches_term(e, d, #[trigger] terms[j])
}

/// Terms `q1` and `q2` match two adjacent tokens of one field of `d`.
pub open spec fn adjacent_pair(e: Engine, d: usize, q1: Seq<char>, q2: Seq<char>) -> bool {
    exists|t1: Seq<char>, t2: Seq<char>, f: usize, p1: usize, p2: usize|
        #[trigger] e.derived_posting(t1, f, d, p1) && #[trigger] e.derived_posting(t2, f, d, p2)
            && p2 == p1 + 1 && close_match(q1, t1) && close_match(q2, t2)
}

/// Some token of the field named `searchable[s]` matches some query term.
pub open spec fn field_match(e: Engine, terms: Seq<Seq<char>>, d: usize, s: int) -> bool {
    exists|t: Seq<char>, f: usize, p: usize, j: int|
        #![trigger e.derived_posting(t, f, d, p), terms[j]]
        e.derived_posting(t, f, d, p) && e.field_names@[f as int]@
            == e.schema.searchable@[s]@ && 0 <= j < terms.len() && close_match(terms[j], t)
}

/// The full token sequence of the field named `searchable[s]` equals `terms`.
pub open spec fn exact_field(e: Engine, terms: Seq<Seq<char>>, d: usize, s: int) -> bool {
    exists|f: usize|
        f < e.field_names@.len() && (#[trigger] e.field_names@[f as int])@
            == e.schema.searchable@[s]@ && e.live(d) && {
            let rv = row_value(e.row_of(d), f);
            rv is Some && tokens_of(rv->Some_0) == terms
        }
}

/// How many of the first `k` terms document `d` matches.
pub open spec fn count_matched(e: Engine, d: usize, terms: Seq<Seq<char>>, k: int) -> int
    decreases k,
{
    if k <= 0 {
        0
    } else {
        count_matched(e, d, terms, k - 1) + if doc_matches_term(e, d, terms[k - 1]) {
            1int
        } else {
            0int
        }
    }
}

/// Total typo cost of the first `k` terms on document `d`: 1 per term that is
/// matched but never exactly.
pub open spec fn typo_total(e: Engine, d: usize, terms: Seq<Seq<char>>, k: int) -> int
    decreases k,
{
    if k <= 0 {
        0
    } else {
        typo_total(e, d, terms, k - 1) + if doc_matches_term(e, d, terms[k - 1]) && !doc_has_exact(
            e,
            d,
            terms[k - 1],
        ) {
            1int
        } else {
            0int
        }
    }
}

/// Proximity cost of the first `k` terms: 1 per consecutive pair that never
/// appears adjacent in one field of `d`.
pub open spec fn prox_total(e: Engine, d: usize, terms: Seq<Seq<char>>, k: int) -> int
    decreases k,
{
    if k <= 1 {
        0
    } else {
        prox_total(e, d, terms, k - 1) + if adjacent_pair(e, d, terms[k - 2], terms[k - 1]) {
            0int
        } else {
            1int
        }
    }
}

/// Index of the first searchable field with a matching token, scanning from
/// `s`; the number of searchable fields when none matches.
pub open spec fn attr_key_from(e: Engine, terms: Seq<Seq<char>>, d: usize, s: int) -> int
    decreases e.schema.searchable@.len() - s,
{
    if s < 0 || s >= e.schema.searchable@.len() {
        e.schema.searchable@.len() as int
    } else if field_match(e, terms, d, s) {
        s
    } else {
        attr_key_from(e, terms, d, s + 1)
    }
}

/// Whether some searchable field of `d` is exactly the query.
pub open spec fn exact_from(e: Engine, terms: Seq<Seq<char>>, d: usize, s: int) -> bool
    decreases e.schema.searchable@.len() - s,
{
    if s < 0 || s >= e.schema.searchable@.len() {
        false
    } else if exact_field(e, terms, d, s) {
        true
    } else {
        exact_from(e, terms, d, s + 1)
    }
}

/// The rank key of document `d` under one criterion: lower keys rank first.
/// `Words` favours more matched terms, `Typo` fewer typos, `Proximity`
/// adjacent terms, `Attribute` earlier searchable fields, `Exactness` exact
/// full-field matches; `Sort` is a no-op for this engine's schemas.
pub open spec fn stage_key(e: Engine, terms: Seq<Seq<char>>, c: Criterion, d: usize) -> int {
    match c {
        Criterion::Words => terms.len() - count_matched(e, d, terms, terms.len() as int),
        Criterion::Typo => typo_total(e, d, terms, terms.len() as int),
        Criterion::Proximity => prox_total(e, d, terms, terms.len() as int),
        Criterion::Attribute => attr_key_from(e, terms, d, 0),
        Criterion::Sort => 0,
        Criterion::Exactness => if exact_from(e, terms, d, 0) {
            0int
        } else {
            1int
        },
    }
}

/// The candidates whose key under `c` is exactly `k`, in their given order.
pub open spec fn filter_key(
    e: Engine,
    terms: Seq<Seq<char>>,
    c: Criterion,
    cands: Seq<usize>,
    k: int,
) -> Seq<usize>
    decreases cands.len(),
{
    if cands.len() == 0 {
        Seq::empty()
    } else {
        filter_key(e, terms, c, cands.drop_last(), k) + if stage_key(e, terms, c, cands.last())
            == k {
            seq![cands.last()]
        } else {
            Seq::empty()
        }
    }
}

/// The candidates reordered by ascending key, stably: all key-0 candidates in
/// their given order, then all key-1 candidates, and so on below `bound`.
pub open spec fn stable_by(
    e: Engine,
    terms: Seq<Seq<char>>,
    c: Criterion,
    cands: Seq<usize>,
    bound: int,
) -> Seq<usize>
    decreases bound,
{
    if bound <= 0 {
        Seq::empty()
    } else {
        stable_by(e, terms, c, cands, bound - 1) + filter_key(e, terms, c, cands, bound - 1)
    }
}

/// The key bound of one criterion: every key is below it.
pub open spec fn key_bound(e: Engine, terms: Seq<Seq<char>>, c: Criterion) -> int {
    match c {
        Criterion::Words => terms.len() as int + 1,
        Criterion::Typo => terms.len() as int + 1,
        Criterion::Proximity => terms.len() as int + 1,
        Criterion::Attribute => e.schema.searchable@.len() as int + 1,
        Criterion::Sort => 1,
        Criterion::Exactness => 2,
    }
}

/// What one criterion stage does to the candidate sequence.
pub open spec fn stage_out(e: Engine, terms: Seq<Seq<char>>, c: Criterion, cands: Seq<usize>)
    -> Seq<usize> {
    match c {
        Criterion::Sort => cands,
        _ => stable_by(e, terms, c, cands, key_bound(e, terms, c)),
    }
}

/// The candidate sequence after the first `n` criteria stages.
pub open spec fn stages_out(
    e: Engine,
    terms: Seq<Seq<char>>,
    crits: Seq<Criterion>,
    cands: Seq<usize>,
    n: int,
) -> Seq<usize>
    decreases n,
{
    if n <= 0 {
        cands
    } else {
        stage_out(e, terms, crits[n - 1], stages_out(e, terms, crits, cands, n - 1))
    }
}

pub proof fn lemma_count_matched_bound(e: Engine, d: usize, terms: Seq<Seq<char>>, k: int)
    requires
        0 <= k,
    ensures
        0 <= count_matched(e, d, terms, k) <= k,
        0 <= typo_total(e, d, terms, k) <= k,
        0 <= prox_total(e, d, terms, k) <= k,
    decreases k,
{
    if k > 0 {
        lemma_count_matched_bound(e, d, terms, k - 1);
    }
}

pub proof fn lemma_attr_key_bound(e: Engine, terms: Seq<Seq<char>>, d: usize, s: int)
    requires
        0 <= s,
    ensures
        0 <= attr_key_from(e, terms, d, s) <= e.schema.searchable@.len(),
    decreases e.schema.searchable@.len() - s,
{
    if s < e.schema.searchable@.len() && !field_match(e, terms, d, s) {
        lemma_attr_key_bound(e, terms, d, s + 1);
    }
}

/// Every key lies below its bound.
pub proof fn lemma_key_bound(e: Engine, terms: Seq<Seq<char>>, c: Criterion, d: usize)
    ensures
        0 <= stage_key(e, terms, c, d) < key_bound(e, terms, c),
{
    lemma_count_matched_bound(e, d, terms, terms.len() as int);
    lemma_attr_key_bound(e, terms, d, 0);
}

/// A stage loses no candidate and invents none: its output length is its
/// input length (each candidate lands in exactly one key bucket).
pub proof fn lemma_stable_push(
    e: Engine,
    terms: Seq<Seq<char>>,
    c: Criterion,
    cands: Seq<usize>,
    x: usize,
    bound: int,
)
    requires
        0 <= bound,
    ensures
        stable_by(e, terms, c, cands.push(x), bound).len() == stable_by(
            e,
            terms,
            c,
            cands,
            bound,
        ).len() + (if 0 <= stage_key(e, terms, c, x) < bound {
            1int
        } else {
            0int
        }),
    decreases bound,
{
    if bound > 0 {
        lemma_stable_push(e, terms, c, cands, x, bound - 1);
        assert(cands.push(x).drop_last() =~= cands);
        assert(cands.push(x).last() == x);
    }
}

pub proof fn lemma_stable_len(
    e: Engine,
    terms: Seq<Seq<char>>,
    c: Criterion,
    cands: Seq<usize>,
    bound: int,
)
    requires
        forall|i: int| 0 <= i < cands.len() ==> 0 <= stage_key(e, terms, c, #[trigger] cands[i])
            < bound,
    ensures
        stable_by(e, terms, c, cands, bound).len() == cands.len(),
    decreases cands.len(),
{
    if cands.len() == 0 {
        assert forall|b: int| 0 <= b <= bound implies stable_by(e, terms, c, cands, b).len()
            == 0 by {
            lemma_stable_empty(e, terms, c, cands, b);
        }
    } else {
        let prefix = cands.drop_last();
        assert(prefix.push(cands.last()) =~= cands);
        lemma_stable_len(e, terms, c, prefix, bound);
        lemma_stable_push(e, terms, c, prefix, cands.last(), bound);
        assert(cands[cands.len() - 1] == cands.last());
    }
}

pub proof fn lemma_stable_empty(
    e: Engine,
    terms: Seq<Seq<char>>,
    c: Criterion,
    cands: Seq<usize>,
    bound: int,
)
    requires
        cands.len() == 0,
    ensures
        stable_by(e, terms, c, cands, bound).len() == 0,
    decreases bound,
{
    if bound > 0 {
        lemma_stable_empty(e, terms, c, cands, bound - 1);
    }
}

/// Decides whether document `d` matches term `q`, and whether exactly.
pub fn term_match_exec(e: &Engine, d: usize, q: &Vec<char>) -> (r: (bool, bool))
    requires
        e.wf(),
    ensures
        r.0 == doc_matches_term(*e, d, q@),
        r.1 == doc_has_exact(*e, d, q@),
{
    let mut matched = false;
    let mut exact = false;
    let mut i: usize = 0;
    while i < e.postings.len()
        invariant
            i <= e.postings@.len(),
            e.wf(),
            matched ==> doc_matches_term(*e, d, q@),
            exact ==> doc_has_exact(*e, d, q@),
            !matched ==> forall|j: int|
                0 <= j < i ==> !((#[trigger] e.postings@[j]).doc == d && close_match(
                    q@,
                    e.postings@[j].term@,
                )),
            !exact ==> forall|j: int|
                0 <= j < i ==> !((#[trigger] e.postings@[j]).doc == d && e.postings@[j].term@
                    == q@),
        decreases e.postings@.len() - i,
    {
        let p = &e.postings[i];
        if p.doc == d {
            let co = close_match_exec(q, &p.term);
            match co {
                Some(c) => {
                    proof {
                        assert(e.derived_posting(
                            e.postings@[i as int].term@,
                            e.postings@[i as int].fid,
                            e.postings@[i as int].doc,
                            e.postings@[i as int].pos,
                        ));
                    }
                    matched = true;
                    if c == 0 {
                        exact = true;
                    }
                },
                None => {},
            }
        }
        i += 1;
    }
    proof {
        if !matched && doc_matches_term(*e, d, q@) {
            let (t, f, p) = choose|t: Seq<char>, f: usize, p: usize|
                #[trigger] e.derived_posting(t, f, d, p) && close_match(q@, t);
            assert(e.postings_has(t, f, d, p));
        }
        if !exact && doc_has_exact(*e, d, q@) {
            let (f, p) = choose|f: usize, p: usize| #[trigger] e.derived_posting(q@, f, d, p);
            assert(e.postings_has(q@, f, d, p));
        }
    }
    (matched, exact)
}

/// Decides whether `q1` and `q2` match adjacent tokens of one field of `d`.
pub fn adjacent_exec(e: &Engine, d: usize, q1: &Vec<char>, q2: &Vec<char>) -> (r: bool)
    requires
        e.wf(),
    ensures
        r == adjacent_pair(*e, d, q1@, q2@),
{
    let mut i1: usize = 0;
    while i1 < e.postings.len()
        invariant
            i1 <= e.postings@.len(),
            e.wf(),
            forall|j1: int, j2: int|
                0 <= j1 < i1 && 0 <= j2 < e.postings@.len() ==> !adj_at(*e, d, q1@, q2@, j1, j2),
        decreases e.postings@.len() - i1,
    {
        let p1 = &e.postings[i1];
        if p1.doc == d && close_match_exec(q1, &p1.term).is_some() {
            let mut i2: usize = 0;
            while i2 < e.postings.len()
                invariant
                    i1 < e.postings@.len(),
                    i2 <= e.postings@.len(),
                    e.wf(),
                    e.postings@[i1 as int].doc == d,
                    close_match(q1@, e.postings@[i1 as int].term@),
                    forall|j2: int| 0 <= j2 < i2 ==> !adj_at(*e, d, q1@, q2@, i1 as int, j2),
                decreases e.postings@.len() - i2,
            {
                let p2 = &e.postings[i2];
                if p2.doc == d && p2.fid == e.postings[i1].fid && p2.pos > e.postings[i1].pos
                    && p2.pos - 1 == e.postings[i1].pos && close_match_exec(q2, &p2.term).is_some() {
                    proof {
                        assert(e.derived_posting(
                            e.postings@[i1 as int].term@,
                            e.postings@[i1 as int].fid,
                            d,
                            e.postings@[i1 as int].pos,
                        ));
                        assert(e.derived_posting(
                            e.postings@[i2 as int].term@,
                            e.postings@[i2 as int].fid,
                            d,
                            e.postings@[i2 as int].pos,
                        ));
                    }
                    return true;
                }
                i2 += 1;
            }
        }
        proof {
            assert forall|j2: int|
                0 <= j2 < e.postings@.len() implies !adj_at(*e, d, q1@, q2@, i1 as int, j2) by {}
        }
        i1 += 1;
    }
    proof {
        if adjacent_pair(*e, d, q1@, q2@) {
            let (t1, t2, f, p1, p2) = choose|
                t1: Seq<char>,
                t2: Seq<char>,
                f: usize,
                p1: usize,
                p2: usize,
            |
                #[trigger] e.derived_posting(t1, f, d, p1) && #[trigger] e.derived_posting(
                    t2,
                    f,
                    d,
                    p2,
                ) && p2 == p1 + 1 && close_match(q1@, t1) && close_match(q2@, t2);
            assert(e.postings_has(t1, f, d, p1));
            assert(e.postings_has(t2, f, d, p2));
            let j1 = choose|j1: int|
                0 <= j1 < e.postings@.len() && (#[trigger] e.postings@[j1]).term@ == t1
                    && e.postings@[j1].fid == f && e.postings@[j1].doc == d && e.postings@[j1].pos
                    == p1;
            let j2 = choose|j2: int|
                0 <= j2 < e.postings@.len() && (#[trigger] e.postings@[j2]).term@ == t2
                    && e.postings@[j2].fid == f && e.postings@[j2].doc == d && e.postings@[j2].pos
                    == p2;
            assert(adj_at(*e, d, q1@, q2@, j1, j2));
        }
    }
    false
}

/// Postings `j1` and `j2` witness an adjacent match of `q1` then `q2`.
pub open spec fn adj_at(e: Engine, d: usize, q1: Seq<char>, q2: Seq<char>, j1: int, j2: int)
    -> bool {
    0 <= j1 < e.postings@.len() && 0 <= j2 < e.postings@.len() && e.postings@[j1].doc == d
        && e.postings@[j2].doc == d && e.postings@[j2].fid == e.postings@[j1].fid
        && e.postings@[j2].pos == e.postings@[j1].pos + 1 && close_match(q1, e.postings@[j1].term@)
        && close_match(q2, e.postings@[j2].term@)
}

/// Decides whether the field named `searchable[s]` of `d` matches any term.
pub fn field_match_exec(e: &Engine, terms: &Vec<Vec<char>>, d: usize, s: usize) -> (r: bool)
    requires
        e.wf(),
        s < e.schema.searchable@.len(),
    ensures
        r == field_match(*e, toks_view(terms@), d, s as int),
{
    let mut i: usize = 0;
    while i < e.postings.len()
        invariant
            i <= e.postings@.len(),
            e.wf(),
            s < e.schema.searchable@.len(),
            forall|ii: int, j: int|
                #![trigger e.postings@[ii], toks_view(terms@)[j]]
                0 <= ii < i && 0 <= j < terms@.len() ==> !(e.postings@[ii].doc == d
                    && e.field_names@[e.postings@[ii].fid as int]@ == e.schema.searchable@[s as int]@
                    && close_match(toks_view(terms@)[j], e.postings@[ii].term@)),
        decreases e.postings@.len() - i,
    {
        let p = &e.postings[i];
        proof {
            assert(e.derived_posting(
                e.postings@[i as int].term@,
                e.postings@[i as int].fid,
                e.postings@[i as int].doc,
                e.postings@[i as int].pos,
            ));
        }
        if p.doc == d && string_eq(&e.field_names[p.fid], &e.schema.searchable[s]) {
            let mut j: usize = 0;
            while j < terms.len()
                invariant
                    i < e.postings@.len(),
                    j <= terms@.len(),
                    e.wf(),
                    s < e.schema.searchable@.len(),
                    e.postings@[i as int].doc == d,
                    e.field_names@[e.postings@[i as int].fid as int]@
                        == e.schema.searchable@[s as int]@,
                    forall|jj: int|
                        0 <= jj < j ==> !close_match(
                            toks_view(terms@)[jj],
                            e.postings@[i as int].term@,
                        ),
                decreases terms@.len() - j,
            {
                let co = close_match_exec(&terms[j], &e.postings[i].term);
                if co.is_some() {
                    proof {
                        assert(e.derived_posting(
                            e.postings@[i as int].term@,
                            e.postings@[i as int].fid,
                            d,
                            e.postings@[i as int].pos,
                        ));
                        assert(toks_view(terms@)[j as int] == terms@[j as int]@);
                    }
                    return true;
                }
                proof {
                    assert(toks_view(terms@)[j as int] == terms@[j as int]@);
                }
                j += 1;
            }
        }
        i += 1;
    }
    proof {
        if field_match(*e, toks_view(terms@), d, s as int) {
            let tv = toks_view(terms@);
            let (t, f, p, j) = choose|t: Seq<char>, f: usize, p: usize, j: int|
                #![trigger e.derived_posting(t, f, d, p), tv[j]]
                e.derived_posting(t, f, d, p) && e.field_names@[f as int]@
                    == e.schema.searchable@[s as int]@ && 0 <= j < tv.len() && close_match(tv[j], t);
            assert(e.postings_has(t, f, d, p));
        }
    }
    false
}

/// Decides whether the field named `searchable[s]` of `d` is exactly the
/// query's token sequence.
pub fn exact_field_exec(e: &Engine, terms: &Vec<Vec<char>>, d: usize, s: usize) -> (r: bool)
    requires
        e.wf(),
        s < e.schema.searchable@.len(),
        e.live(d),
    ensures
        r == exact_field(*e, toks_view(terms@), d, s as int),
{
    let fo = find_name(&e.field_names, &e.schema.searchable[s]);
    match fo {
        None => {
            proof {
                if exact_field(*e, toks_view(terms@), d, s as int) {
                    let f = choose|f: usize|
                        f < e.field_names@.len() && (#[trigger] e.field_names@[f as int])@
                            == e.schema.searchable@[s as int]@ && e.live(d) && {
                            let rv = row_value(e.row_of(d), f);
                            rv is Some && tokens_of(rv->Some_0) == toks_view(terms@)
                        };
                    assert(has_name(e.field_names@, e.schema.searchable@[s as int]@));
                }
            }
            false
        },
        Some(fidx) => {
            let mut toks: Vec<Vec<char>> = Vec::new();
            let mut has_field = false;
            let ghost mut valv: Seq<char> = Seq::empty();
            match &e.rows[d] {
                Some(row) => {
                    let jo = row_find(row, fidx);
                    match jo {
                        Some(j) => {
                            toks = tokenize(row[j].1.as_str());
                            has_field = true;
                            proof {
                                valv = row@[j as int].1@;
                            }
                        },
                        None => {},
                    }
                },
                None => {
                    proof {
                        assert(false);
                    }
                },
            }
            proof {
                assert forall|f: usize|
                    f < e.field_names@.len() && (#[trigger] e.field_names@[f as int])@
                        == e.schema.searchable@[s as int]@ implies f == fidx by {}
            }
            if !has_field {
                proof {
                    if exact_field(*e, toks_view(terms@), d, s as int) {
                        let f = choose|f: usize|
                            f < e.field_names@.len() && (#[trigger] e.field_names@[f as int])@
                                == e.schema.searchable@[s as int]@ && e.live(d) && {
                                let rv = row_value(e.row_of(d), f);
                                rv is Some && tokens_of(rv->Some_0) == toks_view(terms@)
                            };
                        assert(f == fidx);
                        assert(false);
                    }
                }
                return false;
            }
            if toks.len() != terms.len() {
                proof {
                    assert(toks_view(toks@).len() != toks_view(terms@).len());
                    if exact_field(*e, toks_view(terms@), d, s as int) {
                        let f = choose|f: usize|
                            f < e.field_names@.len() && (#[trigger] e.field_names@[f as int])@
                                == e.schema.searchable@[s as int]@ && e.live(d) && {
                                let rv = row_value(e.row_of(d), f);
                                rv is Some && tokens_of(rv->Some_0) == toks_view(terms@)
                            };
                        assert(e.field_names@[fidx as int]@ == e.schema.searchable@[s as int]@);
                        if f < fidx {
                            assert(e.field_names@[f as int]@ != e.field_names@[fidx as int]@);
                        } else if fidx < f {
                            assert(e.field_names@[fidx as int]@ != e.field_names@[f as int]@);
                        }
                        assert(f == fidx);
                        assert(tokens_of(valv) == toks_view(terms@));
                        assert(false);
                    }
                }
                return false;
            }
            let mut j: usize = 0;
            while j < toks.len()
                invariant
                    j <= toks@.len(),
                    toks@.len() == terms@.len(),
                    e.wf(),
                    e.live(d),
                    s < e.schema.searchable@.len(),
                    fidx < e.field_names@.len(),
                    e.field_names@[fidx as int]@ == e.schema.searchable@[s as int]@,
                    row_value(e.row_of(d), fidx) == Some(valv),
                    toks_view(toks@) == tokens_of(valv),
                    forall|jj: int| 0 <= jj < j ==> toks@[jj]@ == terms@[jj]@,
                decreases toks@.len() - j,
            {
                if !chars_eq(&toks[j], &terms[j]) {
                    proof {
                        assert(toks_view(toks@)[j as int] == toks@[j as int]@);
                        assert(toks_view(terms@)[j as int] == terms@[j as int]@);
                        if exact_field(*e, toks_view(terms@), d, s as int) {
                            let f = choose|f: usize|
                                f < e.field_names@.len() && (#[trigger] e.field_names@[f as int])@
                                    == e.schema.searchable@[s as int]@ && e.live(d) && {
                                    let rv = row_value(e.row_of(d), f);
                                    rv is Some && tokens_of(rv->Some_0) == toks_view(terms@)
                                };
                            assert(e.field_names@[fidx as int]@ == e.schema.searchable@[s as int]@);
                            if f < fidx {
                                assert(e.field_names@[f as int]@ != e.field_names@[fidx as int]@);
                            } else if fidx < f {
                                assert(e.field_names@[fidx as int]@ != e.field_names@[f as int]@);
                            }
                            assert(f == fidx);
                            assert(tokens_of(valv) == toks_view(terms@));
                            assert(false);
                        }
                    }
                    return false;
                }
                j += 1;
            }
            proof {
                assert forall|jj: int|
                    0 <= jj < terms@.len() implies toks_view(toks@)[jj] == toks_view(
                    terms@,
                )[jj] by {}
                assert(toks_view(toks@) =~= toks_view(terms@));
                assert(tokens_of(valv) == toks_view(terms@));
            }
            true
        },
    }
}

/// Computes the rank key of `d` under one criterion.
pub fn stage_key_exec(e: &Engine, terms: &Vec<Vec<char>>, c: Criterion, d: usize) -> (k: usize)
    requires
        e.wf(),
        e.live(d),
    ensures
        k as int == stage_key(*e, toks_view(terms@), c, d),
{
    let ghost tv = toks_view(terms@);
    match c {
        Criterion::Words => {
            let mut m: usize = 0;
            let mut j: usize = 0;
            while j < terms.len()
                invariant
                    j <= terms@.len(),
                    e.wf(),
                    tv == toks_view(terms@),
                    m == count_matched(*e, d, tv, j as int),
                    m <= j,
                decreases terms@.len() - j,
            {
                let r = term_match_exec(e, d, &terms[j]);
                proof {
                    assert(tv[j as int] == terms@[j as int]@);
                }
                if r.0 {
                    m += 1;
                }
                j += 1;
            }
            terms.len() - m
        },
        Criterion::Typo => {
            let mut m: usize = 0;
            let mut j: usize = 0;
            while j < terms.len()
                invariant
                    j <= terms@.len(),
                    e.wf(),
                    tv == toks_view(terms@),
                    m == typo_total(*e, d, tv, j as int),
                    m <= j,
                decreases terms@.len() - j,
            {
                let r = term_match_exec(e, d, &terms[j]);
                proof {
                    assert(tv[j as int] == terms@[j as int]@);
                }
                if r.0 && !r.1 {
                    m += 1;
                }
                j += 1;
            }
            m
        },
        Criterion::Proximity => {
            let mut m: usize = 0;
            if terms.len() < 2 {
                return 0;
            }
            let mut j: usize = 1;
            while j < terms.len()
                invariant
                    1 <= j <= terms@.len(),
                    terms@.len() >= 2,
                    e.wf(),
                    tv == toks_view(terms@),
                    m == prox_total(*e, d, tv, j as int),
                    m <= j,
                decreases terms@.len() - j,
            {
                let r = adjacent_exec(e, d, &terms[j - 1], &terms[j]);
                proof {
                    assert(tv[j as int] == terms@[j as int]@);
                    assert(tv[j - 1] == terms@[j - 1]@);
                }
                if !r {
                    m += 1;
                }
                j += 1;
            }
            m
        },
        Criterion::Attribute => {
            let mut s: usize = 0;
            while s < e.schema.searchable.len()
                invariant
                    s <= e.schema.searchable@.len(),
                    e.wf(),
                    c is Attribute,
                    tv == toks_view(terms@),
                    attr_key_from(*e, tv, d, 0) == attr_key_from(*e, tv, d, s as int),
                decreases e.schema.searchable@.len() - s,
            {
                if field_match_exec(e, terms, d, s) {
                    proof {
                        assert(attr_key_from(*e, tv, d, s as int) == s as int);
                    }
                    return s;
                }
                s += 1;
            }
            proof {
                assert(attr_key_from(*e, tv, d, s as int) == s as int);
            }
            s
        },
        Criterion::Sort => 0,
        Criterion::Exactness => {
            let mut s: usize = 0;
            while s < e.schema.searchable.len()
                invariant
                    s <= e.schema.searchable@.len(),
                    e.wf(),
                    e.live(d),
                    c is Exactness,
                    tv == toks_view(terms@),
                    exact_from(*e, tv, d, 0) == exact_from(*e, tv, d, s as int),
                decreases e.schema.searchable@.len() - s,
            {
                if exact_field_exec(e, terms, d, s) {
                    proof {
                        assert(exact_from(*e, tv, d, s as int));
                    }
                    return 0;
                }
                s += 1;
            }
            proof {
                assert(!exact_from(*e, tv, d, s as int));
            }
            1
        },
    }
}

/// Applies one criterion stage: candidates are re-bucketed by ascending key,
/// stably (ties keep their relative order); the `Sort` stage, with no sort
/// configured, is the identity.
pub fn stage_rank(e: &Engine, cands: &Vec<usize>, terms: &Vec<Vec<char>>, c: Criterion) -> (r: Vec<
    usize,
>)
    requires
        e.wf(),
        forall|i: int| 0 <= i < cands@.len() ==> e.live(#[trigger] cands@[i]),
    ensures
        r@ == stage_out(*e, toks_view(terms@), c, cands@),
        r@.len() == cands@.len(),
        forall|i: int| 0 <= i < r@.len() ==> e.live(#[trigger] r@[i]),
{
    let ghost tv = toks_view(terms@);
    let is_sort = match c {
        Criterion::Sort => true,
        _ => false,
    };
    if is_sort {
        let mut out: Vec<usize> = Vec::new();
        let mut i: usize = 0;
        while i < cands.len()
            invariant
                i <= cands@.len(),
                out@ == cands@.subrange(0, i as int),
            decreases cands@.len() - i,
        {
            out.push(cands[i]);
            proof {
                assert(out@ =~= cands@.subrange(0, i + 1));
            }
            i += 1;
        }
        proof {
            assert(out@ =~= cands@);
        }
        return out;
    }
    let bm1: usize = match c {
        Criterion::Words => terms.len(),
        Criterion::Typo => terms.len(),
        Criterion::Proximity => terms.len(),
        Criterion::Attribute => e.schema.searchable.len(),
        Criterion::Sort => 0,
        Criterion::Exactness => 1,
    };
    let mut out: Vec<usize> = Vec::new();
    let mut k: usize = 0;
    loop
        invariant_except_break
            out@ == stable_by(*e, tv, c, cands@, k as int),
        invariant
            k <= bm1,
            bm1 as int + 1 == key_bound(*e, tv, c),
            !(c is Sort),
            e.wf(),
            tv == toks_view(terms@),
            forall|i: int| 0 <= i < cands@.len() ==> e.live(#[trigger] cands@[i]),
            forall|i: int| 0 <= i < out@.len() ==> e.live(#[trigger] out@[i]),
        ensures
            out@ == stable_by(*e, tv, c, cands@, bm1 as int + 1),
            forall|i: int| 0 <= i < out@.len() ==> e.live(#[trigger] out@[i]),
        decreases bm1 - k,
    {
        let mut i: usize = 0;
        while i < cands.len()
            invariant
                i <= cands@.len(),
                k <= bm1,
                e.wf(),
                tv == toks_view(terms@),
                forall|ii: int| 0 <= ii < cands@.len() ==> e.live(#[trigger] cands@[ii]),
                forall|ii: int| 0 <= ii < out@.len() ==> e.live(#[trigger] out@[ii]),
                out@ == stable_by(*e, tv, c, cands@, k as int) + filter_key(
                    *e,
                    tv,
                    c,
                    cands@.subrange(0, i as int),
                    k as int,
                ),
            decreases cands@.len() - i,
        {
            let key = stage_key_exec(e, terms, c, cands[i]);
            proof {
                assert(cands@.subrange(0, i + 1).drop_last() =~= cands@.subrange(0, i as int));
                assert(cands@.subrange(0, i + 1).last() == cands@[i as int]);
            }
            if key == k {
                out.push(cands[i]);
            }
            i += 1;
        }
        proof {
            assert(cands@.subrange(0, cands@.len() as int) =~= cands@);
        }
        if k == bm1 {
            break;
        }
        k += 1;
    }
    proof {
        assert(out@ == stage_out(*e, tv, c, cands@));
        assert forall|i: int|
            0 <= i < cands@.len() implies 0 <= stage_key(*e, tv, c, #[trigger] cands@[i])
            < key_bound(*e, tv, c) by {
            lemma_key_bound(*e, tv, c, cands@[i]);
        }
        lemma_stable_len(*e, tv, c, cands@, key_bound(*e, tv, c));
    }
    out
}

/// The whole pipeline preserves the number of candidates.
pub proof fn lemma_stages_len(
    e: Engine,
    terms: Seq<Seq<char>>,
    crits: Seq<Criterion>,
    cands: Seq<usize>,
    n: int,
)
    requires
        0 <= n <= crits.len(),
    ensures
        stages_out(e, terms, crits, cands, n).len() == cands.len(),
    decreases n,
{
    if n > 0 {
        lemma_stages_len(e, terms, crits, cands, n - 1);
        let prev = stages_out(e, terms, crits, cands, n - 1);
        let c = crits[n - 1];
        if !(c is Sort) {
            assert forall|i: int|
                0 <= i < prev.len() implies 0 <= stage_key(e, terms, c, #[trigger] prev[i])
                < key_bound(e, terms, c) by {
                lemma_key_bound(e, terms, c, prev[i]);
            }
            lemma_stable_len(e, terms, c, prev, key_bound(e, terms, c));
        }
    }
}

} // verus!
