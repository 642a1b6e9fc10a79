use vstd::prelude::*;

verus! {

/// A token character: ASCII letter or digit.  Everything else separates
/// tokens.  The tokenizer is a pluggable capability of the engine; this is
/// the fixed conformant algorithm this crate ships.
pub open spec fn is_word_char(c: char) -> bool {
    let u = c as u32;
    (48 <= u && u <= 57) || (65 <= u && u <= 90) || (97 <= u && u <= 122)
}

/// One tokenizer step: `acc` is (finished tokens, current run of word chars).
pub open spec fn tok_step(acc: (Seq<Seq<char>>, Seq<char>), c: char) -> (Seq<Seq<char>>, Seq<char>) {
    if is_word_char(c) {
        (acc.0, acc.1.push(c))
    } else if acc.1.len() > 0 {
        (acc.0.push(acc.1), Seq::empty())
    } else {
        acc
    }
}

/// The tokenizer state after reading the first `n` characters of `s`.
pub open spec fn tok_fold(s: Seq<char>, n: int) -> (Seq<Seq<char>>, Seq<char>)
    decreases n,
{
    if n <= 0 {
        (Seq::empty(), Seq::empty())
    } else {
        tok_step(tok_fold(s, n - 1), s[n - 1])
    }
}

/// The tokens of a text: maximal runs of word characters, in order.
pub open spec fn tokens_of(s: Seq<char>) -> Seq<Seq<char>> {
    let r = tok_fold(s, s.len() as int);
    if r.1.len() > 0 {
        r.0.push(r.1)
    } else {
        r.0
    }
}

/// The views of a vector of exec tokens.
pub open spec fn toks_view(v: Seq<Vec<char>>) -> Seq<Seq<char>> {
    v.map_values(|t: Vec<char>| t@)
}

/// Splits a text into its tokens.
pub fn tokenize(s: &str) -> (r: Vec<Vec<char>>)
    ensures
        toks_view(r@) == tokens_of(s@),
{
    let n = s.unicode_len();
    let mut out: Vec<Vec<char>> = Vec::new();
    let mut cur: Vec<char> = Vec::new();
    let mut i: usize = 0;
    while i < n
        invariant
            i <= n,
            n == s@.len(),
            toks_view(out@) == tok_fold(s@, i as int).0,
            cur@ == tok_fold(s@, i as int).1,
        decreases n - i,
    {
        let c = s.get_char(i);
        let u = c as u32;
        if (48 <= u && u <= 57) || (65 <= u && u <= 90) || (97 <= u && u <= 122) {
            cur.push(c);
        } else if cur.len() > 0 {
            let done = cur;
            cur = Vec::new();
            out.push(done);
            proof {
                assert(toks_view(out@) =~= tok_fold(s@, i + 1).0);
            }
        }
        proof {
            assert(toks_view(out@) =~= tok_fold(s@, i + 1).0);
        }
        i += 1;
    }
    if cur.len() > 0 {
        out.push(cur);
        proof {
            assert(toks_view(out@) =~= tokens_of(s@));
        }
    }
    out
}

/// The number of positions at which the first `n` characters of `a` and `b`
/// disagree.
pub open spec fn diff_count(a: Seq<char>, b: Seq<char>, n: int) -> int
    decreases n,
{
    if n <= 0 {
        0
    } else {
        diff_count(a, b, n - 1) + if a[n - 1] == b[n - 1] {
            0int
        } else {
            1int
        }
    }
}

pub proof fn lemma_diff_count(a: Seq<char>, b: Seq<char>, n: int)
    requires
        0 <= n,
    ensures
        diff_count(a, b, n) >= 0,
        diff_count(a, b, n) == 0 <==> (forall|k: int| 0 <= k < n ==> a[k] == b[k]),
    decreases n,
{
    if n > 0 {
        lemma_diff_count(a, b, n - 1);
    }
}

/// Typo-tolerant term match: exact, or — for terms of at least five
/// characters — a single-character substitution.
pub open spec fn close_match(q: Seq<char>, t: Seq<char>) -> bool {
    q == t || (q.len() == t.len() && q.len() >= 5 && diff_count(q, t, q.len() as int) <= 1)
}

/// The typo cost of a close match: 0 for an exact match, 1 otherwise.
pub open spec fn typo_cost(q: Seq<char>, t: Seq<char>) -> int {
    if q == t {
        0
    } else {
        1
    }
}

/// Decides whether query term `q` matches document term `t` under the typo
/// rule, and with how many typos.
pub fn close_match_exec(q: &Vec<char>, t: &Vec<char>) -> (r: Option<u32>)
    ensures
        r is Some <==> close_match(q@, t@),
        r is Some ==> r->Some_0 == typo_cost(q@, t@),
{
    if q.len() != t.len() {
        return None;
    }
    let mut diffs: u64 = 0;
    let mut i: usize = 0;
    while i < q.len()
        invariant
            i <= q@.len(),
            q@.len() == t@.len(),
            diffs == diff_count(q@, t@, i as int),
            diffs <= i,
        decreases q@.len() - i,
    {
        proof {
            lemma_diff_count(q@, t@, i as int);
        }
        if q[i] != t[i] {
            diffs += 1;
        }
        i += 1;
    }
    proof {
        lemma_diff_count(q@, t@, q@.len() as int);
    }
    if diffs == 0 {
        proof {
            assert(q@ =~= t@);
        }
        Some(0)
    } else if q.len() >= 5 && diffs <= 1 {
        proof {
            if q@ == t@ {
                assert(diff_count(q@, t@, q@.len() as int) == 0);
            }
        }
        Some(1)
    } else {
        proof {
            if q@ == t@ {
                assert(diff_count(q@, t@, q@.len() as int) == 0);
            }
        }
        None
    }
}

/// Compares two exec tokens.
pub fn chars_eq(a: &Vec<char>, b: &Vec<char>) -> (r: bool)
    ensures
        r == (a@ == b@),
{
    if a.len() != b.len() {
        return false;
    }
    let mut i: usize = 0;
    while i < a.len()
        invariant
            i <= a@.len(),
            a@.len() == b@.len(),
            forall|k: int| 0 <= k < i ==> a@[k] == b@[k],
        decreases a@.len() - i,
    {
        if a[i] != b[i] {
            return false;
        }
        i += 1;
    }
    proof {
        assert(a@ =~= b@);
    }
    true
}

/// True when the text has no token at all: the match-all query form.
pub fn is_blank(s: &str) -> (r: bool)
    ensures
        r == (tokens_of(s@).len() == 0),
{
    let toks = tokenize(s);
    proof {
        if toks@.len() == 0 {
            assert(toks_view(toks@).len() == 0);
        }
    }
    toks.len() == 0
}

} // verus!
