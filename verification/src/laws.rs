use vstd::prelude::*;
use crate::engine::{Engine, lemma_ext_mem};
use crate::mutate::{apply_adds, apply_removes};
use crate::search::{page, proj_row, matching_cands, relaxed_k};
use crate::rank::doc_matches_all;
use crate::schema::has_name;

verus! {

/// The inverted index is exactly the derived one: a posting record is present
/// if and only if the stored rows put that term at that position of that
/// field of that document.  With the replace semantics of the mutation
/// pipeline, no posting of an overwritten document survives.
pub proof fn lemma_index_consistent(e: Engine, t: Seq<char>, f: usize, d: usize, p: usize)
    requires
        e.wf(),
    ensures
        e.postings_has(t, f, d, p) <==> e.derived_posting(t, f, d, p),
{
    if e.postings_has(t, f, d, p) {
        let i = choose|i: int|
            0 <= i < e.postings@.len() && (#[trigger] e.postings@[i]).term@ == t
                && e.postings@[i].fid == f && e.postings@[i].doc == d && e.postings@[i].pos == p;
        assert(e.derived_posting(t, f, d, p));
    }
}

/// Replace semantics: binding the same external id twice keeps one document,
/// with the second content, and the store is otherwise untouched.
pub proof fn lemma_replace(
    m: Map<Seq<char>, Seq<(Seq<char>, Seq<char>)>>,
    x: Seq<char>,
    d1: Seq<(Seq<char>, Seq<char>)>,
    d2: Seq<(Seq<char>, Seq<char>)>,
)
    ensures
        m.insert(x, d1).insert(x, d2) == m.insert(x, d2),
        m.insert(x, d1).insert(x, d2)[x] == d2,
        m.insert(x, d1).insert(x, d2).dom() =~= m.dom().insert(x),
{
    assert(m.insert(x, d1).insert(x, d2) =~= m.insert(x, d2));
}

/// Removal idempotence: removing an id that the store does not hold changes
/// nothing.
pub proof fn lemma_removal_idempotent(m: Map<Seq<char>, Seq<(Seq<char>, Seq<char>)>>, x: Seq<char>)
    requires
        !m.dom().contains(x),
    ensures
        apply_removes(m, seq![x]) == m,
{
    assert(seq![x].drop_last() =~= Seq::<Seq<char>>::empty());
    assert(apply_removes(m, Seq::<Seq<char>>::empty()) == m);
    assert(seq![x].last() == x);
    assert(apply_removes(m, seq![x]) == m.remove(x));
    assert(m.remove(x) =~= m);
}

/// The external-id keys of the live mapping.
pub open spec fn keys_of(ext: Seq<(String, usize)>) -> Set<Seq<char>>
    decreases ext.len(),
{
    if ext.len() == 0 {
        Set::empty()
    } else {
        keys_of(ext.drop_last()).insert(ext.last().0@)
    }
}

pub proof fn lemma_keys_of_mem(ext: Seq<(String, usize)>, y: Seq<char>)
    ensures
        keys_of(ext).contains(y) <==> exists|j: int| 0 <= j < ext.len() && (#[trigger] ext[j]).0@
            == y,
    decreases ext.len(),
{
    if ext.len() > 0 {
        lemma_keys_of_mem(ext.drop_last(), y);
        if keys_of(ext).contains(y) {
            if y == ext.last().0@ {
                assert(ext[ext.len() - 1].0@ == y);
            } else {
                let j = choose|j: int|
                    0 <= j < ext.drop_last().len() && (#[trigger] ext.drop_last()[j]).0@ == y;
                assert(ext[j].0@ == y);
            }
        }
        if exists|j: int| 0 <= j < ext.len() && (#[trigger] ext[j]).0@ == y {
            let j = choose|j: int| 0 <= j < ext.len() && (#[trigger] ext[j]).0@ == y;
            if j < ext.len() - 1 {
                assert(ext.drop_last()[j].0@ == y);
            }
        }
    }
}

pub proof fn lemma_keys_of_count(ext: Seq<(String, usize)>)
    requires
        forall|k1: int, k2: int| 0 <= k1 < k2 < ext.len() ==> ext[k1].0@ != ext[k2].0@,
    ensures
        keys_of(ext).finite(),
        keys_of(ext).len() == ext.len(),
    decreases ext.len(),
{
    broadcast use vstd::set::axiom_set_insert_len;

    if ext.len() > 0 {
        lemma_keys_of_count(ext.drop_last());
        lemma_keys_of_mem(ext.drop_last(), ext.last().0@);
        if keys_of(ext.drop_last()).contains(ext.last().0@) {
            let j = choose|j: int|
                0 <= j < ext.drop_last().len() && (#[trigger] ext.drop_last()[j]).0@
                    == ext.last().0@;
            assert(ext[j].0@ == ext[ext.len() - 1].0@);
            assert(false);
        }
    }
}

/// The document count is the number of keys of the abstract store.
pub proof fn lemma_abs_count(e: Engine)
    requires
        e.wf(),
    ensures
        e.abs().dom().finite(),
        e.abs().dom().len() == e.doc_count(),
{
    assert forall|y: Seq<char>| #[trigger] e.abs().dom().contains(y) == keys_of(
        e.ext_ids@,
    ).contains(y) by {
        lemma_ext_mem(e.ext_ids@, y);
        lemma_keys_of_mem(e.ext_ids@, y);
    }
    assert(e.abs().dom() =~= keys_of(e.ext_ids@));
    lemma_keys_of_count(e.ext_ids@);
}

/// Adding documents with fresh, pairwise-distinct external ids grows the
/// store by exactly their number.
pub proof fn lemma_adds_count(
    m: Map<Seq<char>, Seq<(Seq<char>, Seq<char>)>>,
    docs: Seq<(Seq<(Seq<char>, Seq<char>)>, Seq<char>)>,
)
    requires
        m.dom().finite(),
        forall|i: int, j: int| 0 <= i < j < docs.len() ==> docs[i].1 != docs[j].1,
        forall|i: int| 0 <= i < docs.len() ==> !m.dom().contains((#[trigger] docs[i]).1),
    ensures
        apply_adds(m, docs).dom().finite(),
        apply_adds(m, docs).dom().len() == m.dom().len() + docs.len(),
        forall|y: Seq<char>|
            #[trigger] apply_adds(m, docs).dom().contains(y) <==> (m.dom().contains(y) || exists|
                i: int,
            | 0 <= i < docs.len() && (#[trigger] docs[i]).1 == y),
    decreases docs.len(),
{
    broadcast use vstd::set::axiom_set_insert_len;

    if docs.len() > 0 {
        let prefix = docs.drop_last();
        assert forall|i: int| 0 <= i < prefix.len() implies !m.dom().contains(
            (#[trigger] prefix[i]).1,
        ) by {
            assert(docs[i].1 == prefix[i].1);
        }
        lemma_adds_count(m, prefix);
        let mid = apply_adds(m, prefix);
        let y0 = docs.last().1;
        if mid.dom().contains(y0) {
            if !m.dom().contains(y0) {
                let i = choose|i: int| 0 <= i < prefix.len() && (#[trigger] prefix[i]).1 == y0;
                assert(docs[i].1 == docs[docs.len() - 1].1);
            }
            assert(false);
        }
        assert(apply_adds(m, docs) == mid.insert(y0, docs.last().0));
        assert forall|y: Seq<char>|
            #[trigger] apply_adds(m, docs).dom().contains(y) <==> (m.dom().contains(y) || exists|
                i: int,
            | 0 <= i < docs.len() && (#[trigger] docs[i]).1 == y) by {
            if apply_adds(m, docs).dom().contains(y) {
                if y != y0 {
                    if !m.dom().contains(y) {
                        let i = choose|i: int|
                            0 <= i < prefix.len() && (#[trigger] prefix[i]).1 == y;
                        assert(docs[i].1 == y);
                    }
                } else {
                    assert(docs[docs.len() - 1].1 == y);
                }
            }
            if exists|i: int| 0 <= i < docs.len() && (#[trigger] docs[i]).1 == y {
                let i = choose|i: int| 0 <= i < docs.len() && (#[trigger] docs[i]).1 == y;
                if i < docs.len() - 1 {
                    assert(prefix[i].1 == y);
                    assert(mid.dom().contains(y));
                }
            }
        }
    }
}

/// Removing pairwise-distinct present ids shrinks the store by exactly their
/// number.
pub proof fn lemma_removes_count(
    m: Map<Seq<char>, Seq<(Seq<char>, Seq<char>)>>,
    ids: Seq<Seq<char>>,
)
    requires
        m.dom().finite(),
        forall|i: int, j: int| 0 <= i < j < ids.len() ==> ids[i] != ids[j],
        forall|i: int| 0 <= i < ids.len() ==> m.dom().contains(#[trigger] ids[i]),
    ensures
        apply_removes(m, ids).dom().finite(),
        apply_removes(m, ids).dom().len() + ids.len() == m.dom().len(),
        forall|y: Seq<char>|
            #[trigger] apply_removes(m, ids).dom().contains(y) <==> (m.dom().contains(y) && !exists|
                i: int,
            | 0 <= i < ids.len() && ids[i] == y),
    decreases ids.len(),
{
    broadcast use vstd::set::axiom_set_remove_len;

    if ids.len() > 0 {
        let prefix = ids.drop_last();
        assert forall|i: int| 0 <= i < prefix.len() implies m.dom().contains(
            #[trigger] prefix[i],
        ) by {
            assert(ids[i] == prefix[i]);
        }
        lemma_removes_count(m, prefix);
        let mid = apply_removes(m, prefix);
        let y0 = ids.last();
        assert(mid.dom().contains(y0)) by {
            assert(m.dom().contains(ids[ids.len() - 1]));
            if exists|i: int| 0 <= i < prefix.len() && prefix[i] == y0 {
                let i = choose|i: int| 0 <= i < prefix.len() && prefix[i] == y0;
                assert(ids[i] == ids[ids.len() - 1]);
                assert(false);
            }
        }
        assert(apply_removes(m, ids) == mid.remove(y0));
        assert forall|y: Seq<char>|
            #[trigger] apply_removes(m, ids).dom().contains(y) <==> (m.dom().contains(y) && !exists|
                i: int,
            | 0 <= i < ids.len() && ids[i] == y) by {
            if exists|i: int| 0 <= i < ids.len() && ids[i] == y {
                let i = choose|i: int| 0 <= i < ids.len() && ids[i] == y;
                if i < ids.len() - 1 {
                    assert(prefix[i] == y);
                }
            }
            if apply_removes(m, ids).dom().contains(y) {
                if exists|i: int| 0 <= i < prefix.len() && prefix[i] == y {
                    let i = choose|i: int| 0 <= i < prefix.len() && prefix[i] == y;
                    assert(false);
                }
                assert forall|i: int| 0 <= i < ids.len() implies ids[i] != y by {
                    if i < ids.len() - 1 {
                        assert(prefix[i] == ids[i]);
                    }
                }
            }
        }
    }
}

/// Count invariant: N additions under fresh distinct ids followed by M
/// removals of a subset of those ids leave the store with N - M more
/// documents than before.
pub proof fn lemma_count_invariant(
    m: Map<Seq<char>, Seq<(Seq<char>, Seq<char>)>>,
    docs: Seq<(Seq<(Seq<char>, Seq<char>)>, Seq<char>)>,
    removes: Seq<Seq<char>>,
)
    requires
        m.dom().finite(),
        forall|i: int, j: int| 0 <= i < j < docs.len() ==> docs[i].1 != docs[j].1,
        forall|i: int| 0 <= i < docs.len() ==> !m.dom().contains((#[trigger] docs[i]).1),
        forall|i: int, j: int| 0 <= i < j < removes.len() ==> removes[i] != removes[j],
        forall|i: int|
            0 <= i < removes.len() ==> exists|j: int|
                0 <= j < docs.len() && (#[trigger] docs[j]).1 == #[trigger] removes[i],
    ensures
        apply_removes(apply_adds(m, docs), removes).dom().len() == m.dom().len() + docs.len()
            - removes.len(),
{
    lemma_adds_count(m, docs);
    let mid = apply_adds(m, docs);
    assert forall|i: int| 0 <= i < removes.len() implies mid.dom().contains(
        #[trigger] removes[i],
    ) by {
        let j = choose|j: int| 0 <= j < docs.len() && (#[trigger] docs[j]).1 == removes[i];
        assert(mid.dom().contains(docs[j].1));
    }
    lemma_removes_count(mid, removes);
}

/// Relaxation correctness for the `Last` strategy: when no document matches
/// all `k` terms but `d` matches the first `k - 1`, the relaxed candidate set
/// contains `d`.
pub proof fn lemma_matching_mem(
    e: Engine,
    uni: Seq<usize>,
    terms: Seq<Seq<char>>,
    k: int,
    d: usize,
)
    ensures
        matching_cands(e, uni, terms, k).contains(d) <==> (uni.contains(d) && doc_matches_all(
            e,
            d,
            terms,
            k,
        )),
    decreases uni.len(),
{
    if uni.len() > 0 {
        lemma_matching_mem(e, uni.drop_last(), terms, k, d);
        let whole = matching_cands(e, uni, terms, k);
        let prev = matching_cands(e, uni.drop_last(), terms, k);
        if whole.contains(d) {
            let i = choose|i: int| 0 <= i < whole.len() && whole[i] == d;
            if i < prev.len() {
                assert(prev[i] == d);
                assert(prev.contains(d));
                let j = choose|j: int| 0 <= j < uni.drop_last().len() && uni.drop_last()[j] == d;
                assert(uni[j] == d);
            } else {
                assert(uni[uni.len() - 1] == d);
            }
        }
        if uni.contains(d) && doc_matches_all(e, d, terms, k) {
            let j = choose|j: int| 0 <= j < uni.len() && uni[j] == d;
            if j < uni.len() - 1 {
                assert(uni.drop_last()[j] == d);
                assert(prev.contains(d));
                let i = choose|i: int| 0 <= i < prev.len() && prev[i] == d;
                assert(whole[i] == d);
            } else {
                assert(whole[whole.len() - 1] == d);
            }
        }
    }
}

pub proof fn lemma_relaxation_last(e: Engine, uni: Seq<usize>, terms: Seq<Seq<char>>, d: usize)
    requires
        terms.len() == 3,
        matching_cands(e, uni, terms, 3).len() == 0,
        uni.contains(d),
        doc_matches_all(e, d, terms, 2),
    ensures
        relaxed_k(e, uni, terms, 3) == 2,
        matching_cands(e, uni, terms, relaxed_k(e, uni, terms, 3)).contains(d),
{
    lemma_matching_mem(e, uni, terms, 2, d);
    assert(matching_cands(e, uni, terms, 2).contains(d));
    assert(matching_cands(e, uni, terms, 2).len() > 0);
    assert(relaxed_k(e, uni, terms, 2) == 2);
    assert(relaxed_k(e, uni, terms, 3) == 2);
}

/// Pagination: a page is the corresponding slice of the full ranking, in the
/// same relative order, and an offset past the end yields nothing.
pub proof fn lemma_pagination(s: Seq<usize>, offset: int, limit: int)
    requires
        0 <= offset,
        0 <= limit,
    ensures
        offset >= s.len() ==> page(s, offset, limit) == Seq::<usize>::empty(),
        offset < s.len() ==> page(s, offset, limit) == page(s, 0, s.len() as int).subrange(
            offset,
            if offset + limit <= s.len() {
                offset + limit
            } else {
                s.len() as int
            },
        ),
        offset < s.len() ==> page(s, offset, limit).len() == (
        if offset + limit <= s.len() {
            limit
        } else {
            s.len() - offset
        }),
{
    if offset < s.len() {
        let hi = if offset + limit <= s.len() {
            offset + limit
        } else {
            s.len() as int
        };
        assert(page(s, 0, s.len() as int) =~= s);
        assert(page(s, offset, limit) =~= s.subrange(offset, hi));
    }
}

/// Field projection: every projected pair's name is a requested field, and
/// its value is the one the row stores for it.
pub proof fn lemma_projection(e: Engine, row: Seq<(usize, String)>, names: Seq<String>)
    ensures
        forall|i: int|
            0 <= i < proj_row(e, row, names).len() ==> has_name(
                names,
                (#[trigger] proj_row(e, row, names)[i]).0,
            ),
    decreases row.len(),
{
    if row.len() > 0 {
        lemma_projection(e, row.drop_last(), names);
        let whole = proj_row(e, row, names);
        let prev = proj_row(e, row.drop_last(), names);
        assert forall|i: int| 0 <= i < whole.len() implies has_name(
            names,
            (#[trigger] whole[i]).0,
        ) by {
            if i < prev.len() {
                assert(whole[i] == prev[i]);
            }
        }
    }
}

} // verus!
