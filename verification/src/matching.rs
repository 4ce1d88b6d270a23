//! The matching engine: score one item against an ordered term list, and
//! rank a candidate collection by score.
//!
//! A term matches a field if it occurs in it as a substring after case
//! folding; the match is graded: a full-field match counts most, then a
//! field-prefix match, then a match starting at a word boundary, then any
//! other substring match. A term's grade for an item is the best grade over
//! the item's fields. Matching is conjunctive: an item whose fields miss any
//! term entirely scores zero and is excluded. Otherwise the score is the
//! average of the per-term grades, so it lies between 1 and 100, with 100 a
//! perfect match on every term.

use vstd::prelude::*;
use crate::items::LaunchItem;
use crate::strutil::{chars_eq, chars_of, fold_case, folded_of};

verus! {

/// `needle` occurs in `hay` starting at position `p`.
pub open spec fn occurs_at(hay: Seq<char>, needle: Seq<char>, p: int) -> bool {
    0 <= p && p + needle.len() <= hay.len() && hay.subrange(p, p + needle.len()) == needle
}

/// `needle` occurs somewhere in `hay`.
pub open spec fn occurs(hay: Seq<char>, needle: Seq<char>) -> bool {
    exists|p: int| occurs_at(hay, needle, p)
}

/// Characters that form words: ASCII letters and digits. Any other character
/// separates words.
pub open spec fn is_word_char(c: char) -> bool {
    ('a' as u32 <= c as u32 && c as u32 <= 'z' as u32)
    || ('A' as u32 <= c as u32 && c as u32 <= 'Z' as u32)
    || ('0' as u32 <= c as u32 && c as u32 <= '9' as u32)
}

/// Position `p` of `hay` starts a word: it is the start of the field, or the
/// previous character is no word character.
pub open spec fn boundary_at(hay: Seq<char>, p: int) -> bool {
    p == 0 || !is_word_char(hay[p - 1])
}

/// `needle` occurs in `hay` starting at some word boundary.
pub open spec fn occurs_at_boundary(hay: Seq<char>, needle: Seq<char>) -> bool {
    exists|p: int| occurs_at(hay, needle, p) && boundary_at(hay, p)
}

/// The grade of one term against one case-folded field: 100 for a full-field
/// match, 75 for a prefix match, 50 for a match at a word boundary, 25 for
/// any other substring match, 0 for no match.
pub open spec fn term_grade(field: Seq<char>, term: Seq<char>) -> nat {
    if field == term {
        100
    } else if occurs_at(field, term, 0) {
        75
    } else if occurs_at_boundary(field, term) {
        50
    } else if occurs(field, term) {
        25
    } else {
        0
    }
}

/// A term's grade against an item: the best grade over name and locator.
pub open spec fn item_grade(name: Seq<char>, uri: Seq<char>, term: Seq<char>) -> nat {
    let gn = term_grade(name, term);
    let gu = term_grade(uri, term);
    if gn >= gu {
        gn
    } else {
        gu
    }
}

/// Sum of the per-term grades of an item.
pub open spec fn grade_sum(name: Seq<char>, uri: Seq<char>, terms: Seq<Seq<char>>) -> nat
    decreases terms.len(),
{
    if terms.len() == 0 {
        0
    } else {
        grade_sum(name, uri, terms.drop_last()) + item_grade(name, uri, terms.last())
    }
}

/// Every term matches the item somewhere.
pub open spec fn all_terms_match(name: Seq<char>, uri: Seq<char>, terms: Seq<Seq<char>>) -> bool {
    forall|i: int| 0 <= i < terms.len() ==> #[trigger] item_grade(name, uri, terms[i]) > 0
}

/// Score of an item whose fields are already case folded: zero when the term
/// list is empty or any term misses the item, else the average grade.
pub open spec fn score_folded(name: Seq<char>, uri: Seq<char>, terms: Seq<Seq<char>>) -> nat {
    if terms.len() == 0 {
        0
    } else if !all_terms_match(name, uri, terms) {
        0
    } else {
        grade_sum(name, uri, terms) / terms.len()
    }
}

/// Score of an item `(name, uri)` against raw terms: everything is case
/// folded first.
pub open spec fn score_of(item: (Seq<char>, Seq<char>), terms: Seq<Seq<char>>) -> nat {
    score_folded(
        folded_of(item.0),
        folded_of(item.1),
        terms.map_values(|t: Seq<char>| folded_of(t)),
    )
}

/// Match against a list of terms and return a score.
pub trait ScoreMatchable {
    /// The score, as a mathematical function of the item and the terms.
    spec fn score_spec(&self, terms: Seq<Seq<char>>) -> nat;

    /// Match `self` against `terms`. Zero means no match; greater means a
    /// better match, 100 a perfect one.
    fn match_score(&self, terms: &Vec<String>) -> (s: u32)
        ensures
            s as nat == self.score_spec(terms.deep_view()),
    ;
}

impl ScoreMatchable for LaunchItem {
    open spec fn score_spec(&self, terms: Seq<Seq<char>>) -> nat {
        score_of(self@, terms)
    }

    fn match_score(&self, terms: &Vec<String>) -> (s: u32)
        ensures
            s as nat == score_of(self@, terms.deep_view()),
    {
        let name = chars_of(fold_case(self.name.as_str()).as_str());
        let uri = chars_of(fold_case(self.uri.as_str()).as_str());
        let mut folded: Vec<Vec<char>> = Vec::new();
        let mut i: usize = 0;
        while i < terms.len()
            invariant
                i <= terms@.len(),
                folded@.len() == i,
                forall|k: int| 0 <= k < i ==> #[trigger] folded@[k]@ == folded_of(terms@[k]@),
            decreases terms@.len() - i,
        {
            folded.push(chars_of(fold_case(terms[i].as_str()).as_str()));
            i = i + 1;
        }
        proof {
            let dv = terms.deep_view().map_values(|t: Seq<char>| folded_of(t));
            assert forall|k: int| 0 <= k < dv.len() implies folded.deep_view()[k] == dv[k] by {
                assert(folded.deep_view()[k] =~= folded@[k]@);
                assert(terms.deep_view()[k] =~= terms@[k]@);
            };
            assert(folded.deep_view() =~= dv);
        }
        match_score_folded(&name, &uri, &folded)
    }
}

/// A source of matchable items: the host side implements it over whatever
/// storage holds the candidate collection. Fetching may fail; the error
/// carries a displayable cause.
pub trait ItemsSource {
    /// Find matchable items.
    fn find_recent_items(&self) -> Result<indexmap::IndexMap<String, LaunchItem>, String>;
}

/// Whether `term` occurs in `field` starting at position `p`.
fn matches_at(field: &Vec<char>, term: &Vec<char>, p: usize) -> (b: bool)
    requires
        p + term@.len() <= field@.len(),
    ensures
        b == occurs_at(field@, term@, p as int),
{
    let flen = field.len();
    let mut j: usize = 0;
    while j < term.len()
        invariant
            j <= term@.len(),
            p + term@.len() <= field@.len(),
            field@.len() == flen,
            forall|k: int| 0 <= k < j ==> field@[p + k] == term@[k],
        decreases term@.len() - j,
    {
        if field[p + j] != term[j] {
            proof {
                let sub = field@.subrange(p as int, p as int + term@.len() as int);
                assert(sub[j as int] == field@[p + j]);
                assert(sub != term@);
            }
            return false;
        }
        j = j + 1;
    }
    proof {
        assert(field@.subrange(p as int, p as int + term@.len() as int) =~= term@);
    }
    true
}

/// Whether `c` is a word character.
fn is_word_char_exec(c: char) -> (b: bool)
    ensures
        b == is_word_char(c),
{
    let u = c as u32;
    (97 <= u && u <= 122) || (65 <= u && u <= 90) || (48 <= u && u <= 57)
}

/// The grade of `term` against the case-folded `field`.
pub fn term_grade_exec(field: &Vec<char>, term: &Vec<char>) -> (g: u32)
    ensures
        g as nat == term_grade(field@, term@),
{
    if term.len() > field.len() {
        proof {
            assert(forall|p: int| !occurs_at(field@, term@, p));
        }
        return 0;
    }
    if chars_eq(field, term) {
        return 100;
    }
    if matches_at(field, term, 0) {
        return 75;
    }
    proof {
        if term@.len() == 0 {
            assert(field@.subrange(0, 0) =~= term@);
        }
    }
    let bound = field.len() - term.len();
    let mut p: usize = 1;
    let mut any = false;
    let mut bnd = false;
    while p <= bound
        invariant
            1 <= p,
            bound == field@.len() - term@.len(),
            1 <= term@.len() <= field@.len(),
            field@.len() <= usize::MAX,
            any == exists|q: int| 1 <= q < p && occurs_at(field@, term@, q),
            bnd == exists|q: int|
                1 <= q < p && occurs_at(field@, term@, q) && !is_word_char(field@[q - 1]),
        decreases bound + 1 - p,
    {
        if matches_at(field, term, p) {
            any = true;
            if !is_word_char_exec(field[p - 1]) {
                bnd = true;
            }
        }
        p = p + 1;
    }
    proof {
        assert(forall|q: int| q >= p ==> !occurs_at(field@, term@, q));
        assert(!occurs_at(field@, term@, 0));
    }
    if bnd {
        proof {
            let q = choose|q: int|
                1 <= q < p && occurs_at(field@, term@, q) && !is_word_char(field@[q - 1]);
            assert(boundary_at(field@, q));
            assert(occurs_at_boundary(field@, term@));
        }
        50
    } else if any {
        proof {
            assert(occurs(field@, term@));
            assert forall|q: int| occurs_at(field@, term@, q) implies !boundary_at(field@, q) by {
                if q == 0 {
                    assert(!occurs_at(field@, term@, 0));
                } else {
                    assert(1 <= q < p);
                }
            }
            assert(!occurs_at_boundary(field@, term@));
        }
        25
    } else {
        proof {
            assert forall|q: int| !occurs_at(field@, term@, q) by {
                if 1 <= q < p {
                } else if q == 0 {
                } else {
                }
            }
            assert(!occurs(field@, term@));
            assert(!occurs_at_boundary(field@, term@));
        }
        0
    }
}

/// Score of an item whose fields and terms are already case folded.
pub fn match_score_folded(name: &Vec<char>, uri: &Vec<char>, terms: &Vec<Vec<char>>) -> (s: u32)
    ensures
        s as nat == score_folded(name@, uri@, terms.deep_view()),
{
    if terms.len() == 0 {
        return 0;
    }
    let mut sum: u128 = 0;
    let mut i: usize = 0;
    while i < terms.len()
        invariant
            i <= terms@.len(),
            terms@.len() > 0,
            sum == grade_sum(name@, uri@, terms.deep_view().take(i as int)),
            sum <= 100 * (i as int),
            forall|k: int| 0 <= k < i ==> #[trigger] item_grade(name@, uri@, terms.deep_view()[k]) > 0,
        decreases terms@.len() - i,
    {
        let gn = term_grade_exec(name, &terms[i]);
        let gu = term_grade_exec(uri, &terms[i]);
        let g = if gn >= gu { gn } else { gu };
        proof {
            assert(terms.deep_view()[i as int] =~= terms@[i as int]@);
            assert(g as nat == item_grade(name@, uri@, terms.deep_view()[i as int]));
        }
        if g == 0 {
            proof {
                assert(!all_terms_match(name@, uri@, terms.deep_view()));
            }
            return 0;
        }
        proof {
            assert(terms.deep_view().take(i + 1).drop_last() =~= terms.deep_view().take(i as int));
            assert(terms.deep_view().take(i + 1).last() == terms.deep_view()[i as int]);
        }
        sum = sum + g as u128;
        i = i + 1;
    }
    proof {
        assert(terms.deep_view().take(terms@.len() as int) =~= terms.deep_view());
        assert(all_terms_match(name@, uri@, terms.deep_view()));
    }
    let n = terms.len() as u128;
    let q = sum / n;
    proof {
        let len = terms.deep_view().len() as int;
        vstd::arithmetic::div_mod::lemma_div_is_ordered(sum as int, 100 * len, len);
        vstd::arithmetic::div_mod::lemma_div_multiples_vanish(100, len);
    }
    q as u32
}

/// One ranked entry: the candidate's score, its position in the candidate
/// list, and its id.
pub type Ranked = (nat, int, Seq<char>);

/// A candidate as the ranking specification sees it: id, name, locator.
pub type Cand = (Seq<char>, Seq<char>, Seq<char>);

/// Score of one candidate against the terms.
pub open spec fn cand_score(c: Cand, terms: Seq<Seq<char>>) -> nat {
    score_of((c.1, c.2), terms)
}

/// Insert `e` into a list ordered by score descending: after every entry with
/// a score at least as high, before the first strictly lower one. An entry
/// inserted later than its ties therefore stays behind them.
pub open spec fn insert_ranked(s: Seq<Ranked>, e: Ranked) -> Seq<Ranked>
    decreases s.len(),
{
    if s.len() == 0 {
        seq![e]
    } else if s[0].0 >= e.0 {
        seq![s[0]] + insert_ranked(s.drop_first(), e)
    } else {
        seq![e] + s
    }
}

/// The ranking of `cands` against `terms`: candidates are taken in order,
/// those with score zero are dropped, the rest are inserted by descending
/// score.
pub open spec fn rank_entries(cands: Seq<Cand>, terms: Seq<Seq<char>>) -> Seq<Ranked>
    decreases cands.len(),
{
    if cands.len() == 0 {
        Seq::empty()
    } else {
        let prev = rank_entries(cands.drop_last(), terms);
        let i = cands.len() - 1;
        let sc = cand_score(cands[i], terms);
        if sc > 0 {
            insert_ranked(prev, (sc, i, cands[i].0))
        } else {
            prev
        }
    }
}

/// The ids of the ranking, in ranked order.
pub open spec fn rank_ids(cands: Seq<Cand>, terms: Seq<Seq<char>>) -> Seq<Seq<char>> {
    rank_entries(cands, terms).map_values(|e: Ranked| e.2)
}

/// The candidates of a list of `(id, item)` pairs.
pub open spec fn cands_of_pairs(s: Seq<(String, LaunchItem)>) -> Seq<Cand> {
    s.map_values(|p: (String, LaunchItem)| (p.0@, p.1.name@, p.1.uri@))
}

/// `e` describes the candidate it points at: a real position, that
/// candidate's id and score, and a positive score.
pub open spec fn entry_valid(cands: Seq<Cand>, terms: Seq<Seq<char>>, e: Ranked) -> bool {
    &&& 0 <= e.1 < cands.len()
    &&& e.0 == cand_score(cands[e.1], terms)
    &&& e.2 == cands[e.1].0
    &&& e.0 > 0
}

/// Scores descend, and entries with equal scores keep their candidate order.
pub open spec fn ranking_ok(s: Seq<Ranked>) -> bool {
    forall|k1: int, k2: int|
        0 <= k1 < k2 < s.len() ==> ((#[trigger] s[k1]).0 > (#[trigger] s[k2]).0 || (s[k1].0
            == s[k2].0 && s[k1].1 < s[k2].1))
}

/// Inserting adds exactly `e` to the entries of the list.
proof fn lemma_insert_ranked_elems(s: Seq<Ranked>, e: Ranked)
    ensures
        insert_ranked(s, e).len() == s.len() + 1,
        forall|x: Ranked| #[trigger] insert_ranked(s, e).contains(x) <==> (x == e || s.contains(x)),
    decreases s.len(),
{
    if s.len() == 0 {
        assert forall|x: Ranked| #[trigger] insert_ranked(s, e).contains(x) implies (x == e
            || s.contains(x)) by {
            let k = choose|k: int| 0 <= k < insert_ranked(s, e).len() && insert_ranked(s, e)[k] == x;
            assert(k == 0);
        }
        assert(insert_ranked(s, e)[0] == e);
    } else if s[0].0 >= e.0 {
        lemma_insert_ranked_elems(s.drop_first(), e);
        let r = insert_ranked(s, e);
        let rt = insert_ranked(s.drop_first(), e);
        assert(r == seq![s[0]] + rt);
        assert forall|x: Ranked| #[trigger] r.contains(x) implies (x == e || s.contains(x)) by {
            let k = choose|k: int| 0 <= k < r.len() && r[k] == x;
            if k == 0 {
                assert(s.contains(s[0]));
            } else {
                assert(rt[k - 1] == x);
                assert(rt.contains(x));
                if x != e {
                    let j = choose|j: int| 0 <= j < s.drop_first().len() && s.drop_first()[j] == x;
                    assert(s[j + 1] == x);
                    assert(s.contains(x));
                }
            }
        }
        assert forall|x: Ranked| (x == e || s.contains(x)) implies #[trigger] r.contains(x) by {
            if x == e {
                assert(rt.contains(e));
                let k = choose|k: int| 0 <= k < rt.len() && rt[k] == e;
                assert(r[k + 1] == e);
            } else {
                let j = choose|j: int| 0 <= j < s.len() && s[j] == x;
                if j == 0 {
                    assert(r[0] == x);
                } else {
                    assert(s.drop_first()[j - 1] == x);
                    assert(s.drop_first().contains(x));
                    assert(rt.contains(x));
                    let k = choose|k: int| 0 <= k < rt.len() && rt[k] == x;
                    assert(r[k + 1] == x);
                }
            }
        }
    } else {
        let r = insert_ranked(s, e);
        assert(r == seq![e] + s);
        assert forall|x: Ranked| #[trigger] r.contains(x) implies (x == e || s.contains(x)) by {
            let k = choose|k: int| 0 <= k < r.len() && r[k] == x;
            if k > 0 {
                assert(s[k - 1] == x);
            }
        }
        assert forall|x: Ranked| (x == e || s.contains(x)) implies #[trigger] r.contains(x) by {
            if x == e {
                assert(r[0] == e);
            } else {
                let j = choose|j: int| 0 <= j < s.len() && s[j] == x;
                assert(r[j + 1] == x);
            }
        }
    }
}

/// Inserting below all present positions keeps the order lawful.
proof fn lemma_insert_ranked_sorted(s: Seq<Ranked>, e: Ranked)
    requires
        ranking_ok(s),
        forall|k: int| 0 <= k < s.len() ==> (#[trigger] s[k]).1 < e.1,
    ensures
        ranking_ok(insert_ranked(s, e)),
    decreases s.len(),
{
    let r = insert_ranked(s, e);
    if s.len() == 0 {
    } else if s[0].0 >= e.0 {
        let st = s.drop_first();
        let rt = insert_ranked(st, e);
        lemma_insert_ranked_sorted(st, e);
        lemma_insert_ranked_elems(st, e);
        assert(r == seq![s[0]] + rt);
        assert forall|k1: int, k2: int| 0 <= k1 < k2 < r.len() implies ((#[trigger] r[k1]).0
            > (#[trigger] r[k2]).0 || (r[k1].0 == r[k2].0 && r[k1].1 < r[k2].1)) by {
            if k1 == 0 {
                let x = rt[k2 - 1];
                assert(rt.contains(x));
                if x == e {
                    assert(s[0].0 >= e.0);
                } else {
                    let j = choose|j: int| 0 <= j < st.len() && st[j] == x;
                    assert(s[j + 1] == x);
                }
            } else {
                assert(rt[k1 - 1] == r[k1] && rt[k2 - 1] == r[k2]);
            }
        }
    } else {
        assert forall|k1: int, k2: int| 0 <= k1 < k2 < r.len() implies ((#[trigger] r[k1]).0
            > (#[trigger] r[k2]).0 || (r[k1].0 == r[k2].0 && r[k1].1 < r[k2].1)) by {
            if k1 == 0 {
                assert(r[k2] == s[k2 - 1]);
                if k2 - 1 > 0 {
                    assert(s[0].0 > s[k2 - 1].0 || (s[0].0 == s[k2 - 1].0 && s[0].1 < s[k2 - 1].1));
                }
                assert(e.0 > s[0].0);
            } else {
                assert(r[k1] == s[k1 - 1] && r[k2] == s[k2 - 1]);
            }
        }
    }
}

/// Everything the ranking holds describes a matching candidate, the order is
/// lawful, and every matching candidate is held.
pub proof fn lemma_rank_entries_props(cands: Seq<Cand>, terms: Seq<Seq<char>>)
    ensures
        forall|k: int|
            0 <= k < rank_entries(cands, terms).len() ==> entry_valid(
                cands,
                terms,
                #[trigger] rank_entries(cands, terms)[k],
            ),
        ranking_ok(rank_entries(cands, terms)),
        forall|i: int|
            0 <= i < cands.len() && cand_score(#[trigger] cands[i], terms) > 0
                ==> rank_entries(cands, terms).contains(
                (cand_score(cands[i], terms), i, cands[i].0),
            ),
    decreases cands.len(),
{
    if cands.len() == 0 {
    } else {
        let pre = cands.drop_last();
        let prev = rank_entries(pre, terms);
        let n = cands.len() - 1;
        let sc = cand_score(cands[n], terms);
        let r = rank_entries(cands, terms);
        lemma_rank_entries_props(pre, terms);
        assert(forall|i: int| 0 <= i < pre.len() ==> pre[i] == #[trigger] cands[i]);
        assert forall|k: int| 0 <= k < prev.len() implies entry_valid(
            cands,
            terms,
            #[trigger] prev[k],
        ) by {
            assert(entry_valid(pre, terms, prev[k]));
        }
        if sc > 0 {
            let e = (sc, n, cands[n].0);
            lemma_insert_ranked_elems(prev, e);
            assert forall|k: int| 0 <= k < prev.len() implies (#[trigger] prev[k]).1 < e.1 by {
                assert(entry_valid(pre, terms, prev[k]));
            }
            lemma_insert_ranked_sorted(prev, e);
            assert forall|k: int| 0 <= k < r.len() implies entry_valid(
                cands,
                terms,
                #[trigger] r[k],
            ) by {
                assert(r.contains(r[k]));
                if r[k] != e {
                    assert(prev.contains(r[k]));
                    let j = choose|j: int| 0 <= j < prev.len() && prev[j] == r[k];
                    assert(entry_valid(cands, terms, prev[j]));
                }
            }
            assert forall|i: int|
                0 <= i < cands.len() && cand_score(#[trigger] cands[i], terms) > 0 implies r
                .contains((cand_score(cands[i], terms), i, cands[i].0)) by {
                if i < n {
                    assert(pre[i] == cands[i]);
                    assert(prev.contains((cand_score(cands[i], terms), i, cands[i].0)));
                } else {
                    assert((cand_score(cands[i], terms), i, cands[i].0) == e);
                }
            }
        } else {
            assert(r == prev);
            assert forall|i: int|
                0 <= i < cands.len() && cand_score(#[trigger] cands[i], terms) > 0 implies r
                .contains((cand_score(cands[i], terms), i, cands[i].0)) by {
                if i < n {
                    assert(pre[i] == cands[i]);
                } else {
                    assert(cand_score(cands[i], terms) == sc);
                }
            }
        }
    }
}

/// Law: a candidate is ranked exactly when its score is positive. Every
/// ranked entry carries the id and the positive score of the candidate it
/// stands for, and a candidate whose score is zero never appears.
pub proof fn lemma_ranked_iff_positive(cands: Seq<Cand>, terms: Seq<Seq<char>>)
    ensures
        forall|k: int|
            0 <= k < rank_entries(cands, terms).len() ==> entry_valid(
                cands,
                terms,
                #[trigger] rank_entries(cands, terms)[k],
            ),
        forall|i: int|
            0 <= i < cands.len() ==> (cand_score(#[trigger] cands[i], terms) > 0 <==> exists|k: int|
                0 <= k < rank_entries(cands, terms).len() && (#[trigger] rank_entries(
                    cands,
                    terms,
                )[k]).1 == i),
{
    lemma_rank_entries_props(cands, terms);
    let r = rank_entries(cands, terms);
    assert forall|i: int|
        0 <= i < cands.len() && cand_score(#[trigger] cands[i], terms) > 0 implies exists|k: int|
        0 <= k < r.len() && (#[trigger] r[k]).1 == i by {
        let e = (cand_score(cands[i], terms), i, cands[i].0);
        assert(r.contains(e));
        let k = choose|k: int| 0 <= k < r.len() && r[k] == e;
        assert(r[k].1 == i);
    }
}

/// Law: the ranking is sorted by score descending, and entries with equal
/// scores keep the relative order their candidates had in the input.
pub proof fn lemma_ranking_sorted(cands: Seq<Cand>, terms: Seq<Seq<char>>)
    ensures
        ranking_ok(rank_entries(cands, terms)),
{
    lemma_rank_entries_props(cands, terms);
}

/// Where the scan of the insertion sort stops is where the specification
/// inserts.
proof fn lemma_insert_ranked_at(s: Seq<Ranked>, e: Ranked, j: int)
    requires
        0 <= j <= s.len(),
        forall|k: int| 0 <= k < j ==> (#[trigger] s[k]).0 >= e.0,
        forall|k: int| j <= k < s.len() ==> (#[trigger] s[k]).0 < e.0,
    ensures
        insert_ranked(s, e) == s.insert(j, e),
    decreases s.len(),
{
    if s.len() == 0 {
        assert(insert_ranked(s, e) =~= s.insert(0, e));
    } else if s[0].0 >= e.0 {
        assert(j >= 1);
        lemma_insert_ranked_at(s.drop_first(), e, j - 1);
        assert(insert_ranked(s, e) =~= s.insert(j, e));
    } else {
        assert(j == 0);
        assert(insert_ranked(s, e) =~= s.insert(0, e));
    }
}

/// The view of the entries the executable ranker accumulates.
pub open spec fn ranked_view(s: Seq<(u32, usize, String)>) -> Seq<Ranked> {
    s.map_values(|t: (u32, usize, String)| (t.0 as nat, t.1 as int, t.2@))
}

/// Find all items from `candidates` which match the given `terms`.
///
/// For each `(id, item)` pair compute the item's score; discard candidates
/// with zero score, and return the ids of the rest, ordered by score in
/// descending order, candidates of equal score staying in their given order.
pub fn find_matching_items(candidates: &Vec<(String, LaunchItem)>, terms: &Vec<String>) -> (r: Vec<
    String,
>)
    ensures
        r.deep_view() == rank_ids(cands_of_pairs(candidates@), terms.deep_view()),
{
    let ghost cands = cands_of_pairs(candidates@);
    let ghost tv = terms.deep_view();
    let mut ranked: Vec<(u32, usize, String)> = Vec::new();
    let mut i: usize = 0;
    while i < candidates.len()
        invariant
            i <= candidates@.len(),
            cands == cands_of_pairs(candidates@),
            tv == terms.deep_view(),
            ranked_view(ranked@) == rank_entries(cands.take(i as int), tv),
        decreases candidates@.len() - i,
    {
        let sc = candidates[i].1.match_score(terms);
        proof {
            assert(cands[i as int] == (candidates@[i as int].0@, candidates@[i as int].1.name@,
                candidates@[i as int].1.uri@));
            assert(cands.take(i + 1).drop_last() =~= cands.take(i as int));
            assert(cands.take(i + 1).last() == cands[i as int]);
            lemma_rank_entries_props(cands.take(i as int), tv);
        }
        if sc > 0 {
            let ghost e: Ranked = (sc as nat, i as int, cands[i as int].0);
            let mut j: usize = ranked.len();
            while j > 0 && ranked[j - 1].0 < sc
                invariant
                    j <= ranked@.len(),
                    forall|k: int|
                        j <= k < ranked@.len() ==> (#[trigger] ranked_view(ranked@)[k]).0 < sc,
                decreases j,
            {
                j = j - 1;
            }
            proof {
                let rv = ranked_view(ranked@);
                assert forall|k: int| 0 <= k < j implies (#[trigger] rv[k]).0 >= e.0 by {
                    assert(rv[j - 1].0 >= sc);
                    if k < j - 1 {
                        assert(ranking_ok(rv));
                        assert(rv[k].0 > rv[j - 1].0 || (rv[k].0 == rv[j - 1].0 && rv[k].1 < rv[
                            j - 1].1));
                    }
                }
                lemma_insert_ranked_at(rv, e, j as int);
            }
            let id = candidates[i].0.clone();
            let ghost before = ranked@;
            ranked.insert(j, (sc, i, id));
            proof {
                assert(ranked_view(ranked@) =~= ranked_view(before).insert(j as int, e));
            }
        }
        i = i + 1;
    }
    proof {
        assert(cands.take(candidates@.len() as int) =~= cands);
    }
    let mut r: Vec<String> = Vec::new();
    let mut k: usize = 0;
    while k < ranked.len()
        invariant
            k <= ranked@.len(),
            ranked_view(ranked@) == rank_entries(cands, tv),
            r.deep_view() =~= rank_ids(cands, tv).take(k as int),
        decreases ranked@.len() - k,
    {
        let ghost rb = r@;
        proof {
            assert(r.deep_view().len() == rb.len());
            assert(rb.len() == k);
        }
        r.push(ranked[k].2.clone());
        proof {
            let ri = rank_ids(cands, tv);
            assert(r@ == rb.push(ranked@[k as int].2));
            assert(r@[k as int] == ranked@[k as int].2);
            assert(ri[k as int] == rank_entries(cands, tv)[k as int].2);
            assert(ranked_view(ranked@)[k as int].2 == ranked@[k as int].2@);
            assert(r@[k as int]@ == ri[k as int]);
            assert forall|m: int| 0 <= m < k implies r.deep_view()[m] == ri.take(k + 1)[m] by {
                assert(r.deep_view()[m] == r@[m]@);
                assert(r@[m] == rb[m]);
                assert(rb[m]@ == ri.take(k as int)[m]);
            }
            assert(r.deep_view() =~= ri.take(k + 1));
        }
        k = k + 1;
    }
    proof {
        assert(rank_ids(cands, tv).take(ranked@.len() as int) =~= rank_ids(cands, tv));
        assert(r.deep_view() =~= rank_ids(cands, tv));
    }
    r
}

} // verus!
