//! Search results, the search-engine capability, the ranking pipeline
//! shared by the engines, and the engine manager.

use vstd::prelude::*;
use vstd::seq_lib::*;
use std::collections::VecDeque;

use crate::error::LiushuError;
use crate::spec_is_prefix;

verus! {

/// One search candidate handed back to the caller.
pub struct SearchResultItem {
    pub text: String,
    pub code: String,
    pub weight: u64,
    pub comment: Option<String>,
}

/// The mathematical model of a `SearchResultItem`.
pub struct SearchResultItemV {
    pub text: Seq<char>,
    pub code: Seq<char>,
    pub weight: u64,
    pub comment: Option<Seq<char>>,
}

impl View for SearchResultItem {
    type V = SearchResultItemV;

    open spec fn view(&self) -> SearchResultItemV {
        SearchResultItemV {
            text: self.text@,
            code: self.code@,
            weight: self.weight,
            comment: match self.comment {
                Some(c) => Some(c@),
                None => None,
            },
        }
    }
}

/// The models of a sequence of results.
pub open spec fn result_views(items: Seq<SearchResultItem>) -> Seq<SearchResultItemV> {
    items.map_values(|it: SearchResultItem| it@)
}

/// Whether `pre` is a prefix of `s@`, decided executably.
pub fn is_prefix_str(pre: &str, s: &str) -> (r: bool)
    ensures
        r == spec_is_prefix(pre@, s@),
{
    let np: usize = pre.unicode_len();
    let ns: usize = s.unicode_len();
    if np > ns {
        return false;
    }
    let mut i: usize = 0;
    while i < np
        invariant
            0 <= i <= np == pre@.len(),
            np <= ns == s@.len(),
            forall|m: int| 0 <= m < i ==> pre@[m] == s@[m],
        decreases np - i,
    {
        if pre.get_char(i) != s.get_char(i) {
            proof {
                assert(s@.subrange(0, np as int)[i as int] != pre@[i as int]);
            }
            return false;
        }
        i = i + 1;
    }
    proof {
        assert(s@.subrange(0, np as int) =~= pre@);
    }
    true
}

/// Rows whose code starts with `code`.
pub open spec fn prefix_filter(rows: Seq<SearchResultItemV>, code: Seq<char>) -> Seq<
    SearchResultItemV,
> {
    rows.filter(|r: SearchResultItemV| spec_is_prefix(code, r.code))
}

/// Keeps the rows whose code starts with `code`.
fn filter_by_prefix(rows: Vec<SearchResultItem>, code: &str) -> (r: Vec<SearchResultItem>)
    ensures
        result_views(r@) == prefix_filter(result_views(rows@), code@),
{
    broadcast use vstd::seq_lib::group_filter_ensures;

    let mut out: Vec<SearchResultItem> = Vec::new();
    let mut i: usize = 0;
    let ghost rv = result_views(rows@);
    proof {
        assert(rv.take(0) =~= Seq::<SearchResultItemV>::empty());
        assert(Seq::<SearchResultItemV>::empty().filter(
            |r: SearchResultItemV| spec_is_prefix(code@, r.code),
        ) =~= Seq::<SearchResultItemV>::empty());
        assert(result_views(out@) =~= Seq::<SearchResultItemV>::empty());
    }
    for i in 0..rows.len()
        invariant
            rv == result_views(rows@),
            rv.len() == rows.len(),
            result_views(out@) == rv.take(i as int).filter(
                |r: SearchResultItemV| spec_is_prefix(code@, r.code),
            ),
    {
        let keep = is_prefix_str(code, rows[i].code.as_str());
        let ghost old_out = out@;
        if keep {
            let row = SearchResultItem {
                text: rows[i].text.clone(),
                code: rows[i].code.clone(),
                weight: rows[i].weight,
                comment: match &rows[i].comment {
                    Some(c) => Some(c.clone()),
                    None => None,
                },
            };
            proof {
                assert(row@ == rv[i as int]);
            }
            out.push(row);
        }
        proof {
            assert(rv.take(i + 1).drop_last() =~= rv.take(i as int));
            assert(rv.take(i + 1).last() == rv[i as int]);
            assert(rv.take(i + 1) =~= rv.take(i as int).push(rv[i as int]));
            rv.take(i as int).lemma_filter_push(
                rv[i as int],
                |r: SearchResultItemV| spec_is_prefix(code@, r.code),
            );
            if keep {
                assert(result_views(out@) =~= result_views(old_out).push(rv[i as int]));
            }
        }
    }
    proof {
        assert(rv.take(rows.len() as int) =~= rv);
    }
    out
}

/// The set of texts occurring in `rows`.
pub open spec fn texts_of(rows: Seq<SearchResultItemV>) -> Set<Seq<char>> {
    Set::new(|t: Seq<char>| exists|j: int| 0 <= j < rows.len() && rows[j].text == t)
}

/// `rows` with every later duplicate of a text removed: the first row for
/// each distinct text survives, in order; rows whose text is in `seen`
/// are dropped.
pub open spec fn dedup_by_text(rows: Seq<SearchResultItemV>, seen: Set<Seq<char>>) -> Seq<
    SearchResultItemV,
>
    decreases rows.len(),
{
    if rows.len() == 0 {
        Seq::empty()
    } else if seen.contains(rows[0].text) {
        dedup_by_text(rows.drop_first(), seen)
    } else {
        seq![rows[0]] + dedup_by_text(rows.drop_first(), seen.insert(rows[0].text))
    }
}

proof fn lemma_texts_of_cons(rows: Seq<SearchResultItemV>)
    requires
        rows.len() > 0,
    ensures
        texts_of(rows) == texts_of(rows.drop_first()).insert(rows[0].text),
{
    let rest = rows.drop_first();
    assert forall|t: Seq<char>| texts_of(rows).contains(t) implies texts_of(rest).insert(
        rows[0].text,
    ).contains(t) by {
        let j = choose|j: int| 0 <= j < rows.len() && rows[j].text == t;
        if j > 0 {
            assert(rest[j - 1] == rows[j]);
            assert(texts_of(rest).contains(t));
        }
    }
    assert forall|t: Seq<char>|
        texts_of(rest).insert(rows[0].text).contains(t) implies texts_of(rows).contains(t) by {
        if t == rows[0].text {
            assert(rows[0].text == t);
        } else {
            let j = choose|j: int| 0 <= j < rest.len() && rest[j].text == t;
            assert(rows[j + 1].text == t);
        }
    }
    assert(texts_of(rows) =~= texts_of(rest).insert(rows[0].text));
}

proof fn lemma_texts_of_push(rows: Seq<SearchResultItemV>, r: SearchResultItemV)
    ensures
        texts_of(rows.push(r)) == texts_of(rows).insert(r.text),
{
    let p = rows.push(r);
    assert forall|t: Seq<char>| texts_of(p).contains(t) implies texts_of(rows).insert(
        r.text,
    ).contains(t) by {
        let j = choose|j: int| 0 <= j < p.len() && p[j].text == t;
        if j < rows.len() {
            assert(rows[j].text == t);
        }
    }
    assert forall|t: Seq<char>|
        texts_of(rows).insert(r.text).contains(t) implies texts_of(p).contains(t) by {
        if t == r.text {
            assert(p[rows.len() as int].text == t);
        } else {
            let j = choose|j: int| 0 <= j < rows.len() && rows[j].text == t;
            assert(p[j].text == t);
        }
    }
    assert(texts_of(p) =~= texts_of(rows).insert(r.text));
}

/// Grouping by text keeps exactly one row per distinct text not yet
/// seen, keeps rows of the input, and loses no text.
pub proof fn lemma_dedup_by_text(rows: Seq<SearchResultItemV>, seen: Set<Seq<char>>)
    ensures
        ({
            let d = dedup_by_text(rows, seen);
            &&& forall|i: int, j: int| 0 <= i < j < d.len() ==> d[i].text != d[j].text
            &&& forall|i: int| 0 <= i < d.len() ==> !seen.contains(d[i].text)
            &&& texts_of(d) =~= texts_of(rows).difference(seen)
            &&& forall|i: int| 0 <= i < d.len() ==> rows.contains(d[i])
        }),
    decreases rows.len(),
{
    let d = dedup_by_text(rows, seen);
    if rows.len() == 0 {
        assert(texts_of(d) =~= texts_of(rows).difference(seen));
    } else {
        let rest = rows.drop_first();
        assert(forall|j: int| 0 <= j < rest.len() ==> rest[j] == rows[j + 1]);
        lemma_texts_of_cons(rows);
        if seen.contains(rows[0].text) {
            lemma_dedup_by_text(rest, seen);
            assert(texts_of(rest).difference(seen) =~= texts_of(rows).difference(seen));
        } else {
            let seen2 = seen.insert(rows[0].text);
            lemma_dedup_by_text(rest, seen2);
            let drest = dedup_by_text(rest, seen2);
            assert(d == seq![rows[0]] + drest);
            assert(forall|i: int| 0 <= i < drest.len() ==> d[i + 1] == drest[i]);
            assert(d.drop_first() =~= drest);
            lemma_texts_of_cons(d);
            assert forall|i: int, j: int| 0 <= i < j < d.len() implies d[i].text != d[j].text by {
                if i == 0 {
                    assert(!seen2.contains(d[j].text) && seen2.contains(rows[0].text));
                }
            }
            assert(texts_of(d) =~= texts_of(rows).difference(seen));
            assert forall|i: int| 0 <= i < d.len() implies rows.contains(d[i]) by {
                if i == 0 {
                    assert(rows[0] == d[0]);
                } else {
                    assert(rest.contains(d[i]));
                    let w = choose|w: int| 0 <= w < rest.len() && rest[w] == d[i];
                    assert(rows[w + 1] == d[i]);
                }
            }
        }
    }
}

/// Character-wise string equality.
pub fn str_eq(a: &str, b: &str) -> (r: bool)
    ensures
        r == (a@ == b@),
{
    let na: usize = a.unicode_len();
    let nb: usize = b.unicode_len();
    if na != nb {
        return false;
    }
    let mut k: usize = 0;
    while k < na
        invariant
            0 <= k <= na == a@.len() == b@.len(),
            forall|m: int| 0 <= m < k ==> a@[m] == b@[m],
        decreases na - k,
    {
        if a.get_char(k) != b.get_char(k) {
            return false;
        }
        k = k + 1;
    }
    proof {
        assert(a@ =~= b@);
    }
    true
}

/// True when some row of `rows` carries `text`.
fn contains_text(rows: &Vec<SearchResultItem>, text: &String) -> (r: bool)
    ensures
        r == texts_of(result_views(rows@)).contains(text@),
{
    let mut i: usize = 0;
    let ghost rv = result_views(rows@);
    while i < rows.len()
        invariant
            0 <= i <= rows.len(),
            rv == result_views(rows@),
            rv.len() == rows.len(),
            forall|m: int| 0 <= m < i ==> rv[m].text != text@,
        decreases rows.len() - i,
    {
        if str_eq(rows[i].text.as_str(), text.as_str()) {
            proof {
                assert(rv[i as int].text == text@);
            }
            return true;
        }
        proof {
            assert(rv[i as int].text != text@);
        }
        i = i + 1;
    }
    false
}

/// Groups `rows` by text: the first row for each distinct text survives,
/// in encounter order. The surviving row's code, weight and comment are
/// those of the first occurrence, which makes the choice among
/// duplicates deterministic.
pub fn group_by_text(rows: Vec<SearchResultItem>) -> (r: Vec<SearchResultItem>)
    ensures
        result_views(r@) == dedup_by_text(result_views(rows@), Set::empty()),
{
    let mut out: Vec<SearchResultItem> = Vec::new();
    let mut i: usize = 0;
    let ghost rv = result_views(rows@);
    proof {
        assert(rv.skip(0) == rv);
        assert(texts_of(result_views(out@)) =~= Set::<Seq<char>>::empty());
        assert(result_views(out@) + dedup_by_text(rv, Set::empty()) =~= dedup_by_text(
            rv,
            Set::empty(),
        ));
    }
    while i < rows.len()
        invariant
            0 <= i <= rows.len(),
            rv == result_views(rows@),
            rv.len() == rows.len(),
            dedup_by_text(rv, Set::empty()) == result_views(out@) + dedup_by_text(
                rv.skip(i as int),
                texts_of(result_views(out@)),
            ),
        decreases rows.len() - i,
    {
        proof {
            assert(rv.skip(i as int).drop_first() =~= rv.skip(i + 1));
            assert(rv.skip(i as int)[0] == rv[i as int]);
        }
        let present = contains_text(&out, &rows[i].text);
        if !present {
            let row = SearchResultItem {
                text: rows[i].text.clone(),
                code: rows[i].code.clone(),
                weight: rows[i].weight,
                comment: match &rows[i].comment {
                    Some(c) => Some(c.clone()),
                    None => None,
                },
            };
            proof {
                assert(row@ == rv[i as int]);
            }
            let ghost old_out = out@;
            out.push(row);
            proof {
                assert(result_views(out@) =~= result_views(old_out) + seq![rv[i as int]]);
                assert(result_views(out@) =~= result_views(old_out).push(rv[i as int]));
                lemma_texts_of_push(result_views(old_out), rv[i as int]);
                assert(texts_of(result_views(out@)) =~= texts_of(result_views(old_out)).insert(
                    rv[i as int].text,
                ));
                assert(result_views(old_out) + (seq![rv[i as int]] + dedup_by_text(
                    rv.skip(i + 1),
                    texts_of(result_views(out@)),
                )) =~= result_views(out@) + dedup_by_text(
                    rv.skip(i + 1),
                    texts_of(result_views(out@)),
                ));
            }
        }
        i = i + 1;
    }
    proof {
        assert(rv.skip(rv.len() as int) =~= Seq::<SearchResultItemV>::empty());
        assert(result_views(out@) + Seq::<SearchResultItemV>::empty() =~= result_views(out@));
    }
    out
}

/// Weights never increase along the sequence.
pub open spec fn sorted_desc(rows: Seq<SearchResultItemV>) -> bool {
    forall|i: int, j: int| 0 <= i < j < rows.len() ==> rows[i].weight >= rows[j].weight
}

/// Sorts `rows` by weight, highest first, by insertion; the result holds
/// exactly the input rows.
pub fn sort_by_weight_desc(rows: Vec<SearchResultItem>) -> (r: Vec<SearchResultItem>)
    ensures
        sorted_desc(result_views(r@)),
        result_views(r@).to_multiset() == result_views(rows@).to_multiset(),
{
    broadcast use vstd::seq_lib::group_to_multiset_ensures;

    let mut out: Vec<SearchResultItem> = Vec::new();
    let mut i: usize = 0;
    let ghost rv = result_views(rows@);
    proof {
        assert(rv.take(0) =~= Seq::<SearchResultItemV>::empty());
        assert(result_views(out@) =~= Seq::<SearchResultItemV>::empty());
    }
    while i < rows.len()
        invariant
            0 <= i <= rows.len(),
            rv == result_views(rows@),
            rv.len() == rows.len(),
            sorted_desc(result_views(out@)),
            result_views(out@).to_multiset() == rv.take(i as int).to_multiset(),
        decreases rows.len() - i,
    {
        let row = SearchResultItem {
            text: rows[i].text.clone(),
            code: rows[i].code.clone(),
            weight: rows[i].weight,
            comment: match &rows[i].comment {
                Some(c) => Some(c.clone()),
                None => None,
            },
        };
        proof {
            assert(row@ == rv[i as int]);
        }
        let w = row.weight;
        let mut k: usize = 0;
        while k < out.len() && out[k].weight >= w
            invariant
                0 <= k <= out.len(),
                forall|m: int| 0 <= m < k ==> result_views(out@)[m].weight >= w,
            decreases out.len() - k,
        {
            k = k + 1;
        }
        proof {
            if k < out.len() {
                assert(result_views(out@)[k as int].weight < w);
            }
        }
        let ghost old_out = result_views(out@);
        out.insert(k, row);
        proof {
            assert(result_views(out@) =~= old_out.insert(k as int, rv[i as int]));
            assert forall|a: int, b: int|
                0 <= a < b < result_views(out@).len() implies result_views(out@)[a].weight
                >= result_views(out@)[b].weight by {
                let s = result_views(out@);
                if a < k && b == k {
                } else if a == k && b > k {
                    assert(s[b] == old_out[b - 1]);
                    assert(old_out[k as int].weight < w);
                    assert(old_out[k as int].weight >= old_out[b - 1].weight);
                } else if b < k {
                    assert(s[a] == old_out[a] && s[b] == old_out[b]);
                } else if a > k {
                    assert(s[a] == old_out[a - 1] && s[b] == old_out[b - 1]);
                } else if a < k && b > k {
                    assert(s[a] == old_out[a] && s[b] == old_out[b - 1]);
                    if k as int <= b - 1 < old_out.len() && k < out.len() - 1 {
                    }
                    assert(old_out[k as int].weight < w <= s[a].weight || old_out.len() == k);
                }
            }
            assert(rv.take(i + 1).drop_last() =~= rv.take(i as int));
            assert(rv.take(i + 1) =~= rv.take(i as int).push(rv[i as int]));
            to_multiset_insert(old_out, k as int, rv[i as int]);
            assert(result_views(out@).to_multiset() == old_out.to_multiset().insert(
                rv[i as int],
            ));
            to_multiset_build(rv.take(i as int), rv[i as int]);
            assert(rv.take(i + 1).to_multiset() == rv.take(i as int).to_multiset().insert(
                rv[i as int],
            ));
        }
        i = i + 1;
    }
    proof {
        assert(rv.take(rv.len() as int) =~= rv);
    }
    out
}

/// What ranked output looks like: every code extends the query, texts
/// are pairwise distinct, and weights never increase.
pub open spec fn ranked_ok(code: Seq<char>, items: Seq<SearchResultItemV>) -> bool {
    &&& forall|i: int| 0 <= i < items.len() ==> spec_is_prefix(code, #[trigger] items[i].code)
    &&& forall|i: int, j: int| 0 <= i < j < items.len() ==> items[i].text != items[j].text
    &&& sorted_desc(items)
}

/// Ranks raw store rows for a query: keeps the rows whose code starts
/// with `code`, groups them by text (first occurrence wins) and sorts
/// them by weight, highest first.
pub fn rank_rows(rows: Vec<SearchResultItem>, code: &str) -> (r: Vec<SearchResultItem>)
    ensures
        ranked_ok(code@, result_views(r@)),
        result_views(r@).to_multiset() == dedup_by_text(
            prefix_filter(result_views(rows@), code@),
            Set::empty(),
        ).to_multiset(),
        prefix_filter(result_views(rows@), code@).len() == 0 ==> r@.len() == 0,
{
    broadcast use vstd::seq_lib::group_to_multiset_ensures;

    let ghost rrv = result_views(rows@);
    let filtered = filter_by_prefix(rows, code);
    let ghost fv = result_views(filtered@);
    let grouped = group_by_text(filtered);
    let ghost gv = result_views(grouped@);
    let sorted = sort_by_weight_desc(grouped);
    proof {
        lemma_dedup_by_text(fv, Set::empty());
        let sv = result_views(sorted@);
        assert forall|i: int| 0 <= i < sv.len() implies spec_is_prefix(
            code@,
            #[trigger] sv[i].code,
        ) by {
            assert(sv.to_multiset().contains(sv[i]));
            assert(gv.contains(sv[i]));
            let j = choose|j: int| 0 <= j < gv.len() && gv[j] == sv[i];
            assert(fv.contains(gv[j]));
            let m = choose|m: int| 0 <= m < fv.len() && fv[m] == gv[j];
            rrv.lemma_filter_pred(|r: SearchResultItemV| spec_is_prefix(code@, r.code), m);
        }
        lemma_distinct_texts_transfer(sv, gv);
        if fv.len() == 0 {
            assert(dedup_by_text(fv, Set::empty()) =~= Seq::<SearchResultItemV>::empty());
            assert(sv.to_multiset().len() == 0);
            assert(sv.len() == 0);
        }
    }
    sorted
}

/// The one capability every search backend offers: `search(code)` yields
/// ranked candidates or a typed error.
pub trait InputMethodEngine {
    /// When a search may be issued at all.
    spec fn search_pre(&self) -> bool;

    /// What this backend promises of a successful search result.
    spec fn search_ok(&self, code: Seq<char>, items: Seq<SearchResultItemV>) -> bool;

    /// Searches candidates for a typed code.
    fn search(&self, code: &str) -> (r: Result<Vec<SearchResultItem>, LiushuError>)
        requires
            self.search_pre(),
        ensures
            (r matches Ok(v) ==> self.search_ok(code@, result_views(v@))),
    ;
}

/// `s` with positions `0` and `k` exchanged.
pub open spec fn promoted<T>(s: Seq<T>, k: int) -> Seq<T> {
    s.update(0, s[k]).update(k, s[0])
}

/// Promoting the same position twice restores the original order: making
/// engine `k` active and then promoting position `k` again leaves the
/// engines as they began.
pub proof fn lemma_promote_twice<T>(s: Seq<T>, k: int)
    requires
        0 <= k < s.len(),
    ensures
        promoted(promoted(s, k), k) == s,
{
    assert(promoted(promoted(s, k), k) =~= s);
}

/// An ordered collection of engines; the engine at the front is active
/// and serves every search.
pub struct EngineManager<E: InputMethodEngine> {
    engines: VecDeque<E>,
}

impl<E: InputMethodEngine> EngineManager<E> {
    /// The engines, front first.
    pub closed spec fn engines_seq(&self) -> Seq<E> {
        self.engines@
    }

    /// Collects engines into a manager; the first becomes active.
    pub fn from(value: Vec<E>) -> (r: Self)
        ensures
            r.engines_seq() == value@,
    {
        let mut engines: VecDeque<E> = VecDeque::new();
        let mut value = value;
        let ghost all = value@;
        while value.len() > 0
            invariant
                engines@ + value@ == all,
            decreases value.len(),
        {
            let e = value.remove(0);
            engines.push_back(e);
        }
        proof {
            assert(engines@ =~= all);
        }
        EngineManager { engines }
    }

    /// Exchanges the active engine with the one at `idx`, promoting it;
    /// the displaced engine moves to `idx`.
    pub fn set_active_engine(&mut self, idx: usize)
        requires
            idx < old(self).engines_seq().len(),
        ensures
            final(self).engines_seq() == promoted(old(self).engines_seq(), idx as int),
    {
        let ghost s = self.engines@;
        if idx == 0 {
            proof {
                assert(promoted(s, 0) =~= s);
            }
            return ;
        }
        let ek = match self.engines.remove(idx) {
            Some(e) => e,
            None => {
                proof {
                    assert(false);
                }
                return ;
            },
        };
        let e0 = match self.engines.remove(0) {
            Some(e) => e,
            None => {
                proof {
                    assert(false);
                }
                return ;
            },
        };
        self.engines.insert(0, ek);
        self.engines.insert(idx, e0);
        proof {
            let t = self.engines@;
            assert forall|m: int| 0 <= m < t.len() implies t[m] == promoted(s, idx as int)[m] by {
                if m == 0 {
                } else if m < idx {
                    assert(t[m] == s.remove(idx as int).remove(0).insert(0, s[idx as int])[m]);
                } else if m == idx {
                } else {
                    assert(t[m] == s.remove(idx as int).remove(0)[m - 2]);
                    assert(s.remove(idx as int)[m - 1] == s[m]);
                }
            }
            assert(t =~= promoted(s, idx as int));
        }
    }
}

impl<E: InputMethodEngine> InputMethodEngine for EngineManager<E> {
    /// A search needs at least one engine, and the active one ready.
    open spec fn search_pre(&self) -> bool {
        self.engines_seq().len() > 0 && self.engines_seq()[0].search_pre()
    }

    /// The manager promises exactly what its active engine promises.
    open spec fn search_ok(&self, code: Seq<char>, items: Seq<SearchResultItemV>) -> bool {
        self.engines_seq().len() > 0 && self.engines_seq()[0].search_ok(code, items)
    }

    /// Delegates to the active engine, the one at the front.
    fn search(&self, code: &str) -> (r: Result<Vec<SearchResultItem>, LiushuError>) {
        self.engines[0].search(code)
    }
}

/// The relational engine: searches a compiled relational dictionary
/// store through a prefix query, then groups and ranks the rows.
pub struct ShapeCodeEngine {
    conn: rusqlite::Connection,
}

impl ShapeCodeEngine {
    /// Wraps an opened connection to a compiled relational store.
    pub fn new(conn: rusqlite::Connection) -> Self {
        ShapeCodeEngine { conn }
    }
}

impl InputMethodEngine for ShapeCodeEngine {
    open spec fn search_pre(&self) -> bool {
        true
    }

    /// Whatever rows the store holds, a successful result is ranked:
    /// every code extends the query, one row per distinct text, weights
    /// never increase.
    open spec fn search_ok(&self, code: Seq<char>, items: Seq<SearchResultItemV>) -> bool {
        ranked_ok(code, items)
    }

    /// Queries rows whose code extends `code`, keeps one row per
    /// distinct text (the store's first, deterministically) and orders
    /// them by weight, highest first. A query matching nothing yields an
    /// empty result; any error is a storage failure, distinct from an
    /// empty result.
    fn search(&self, code: &str) -> (r: Result<Vec<SearchResultItem>, LiushuError>)
        ensures
            (r matches Err(e) ==> e is Storage),
    {
        match crate::store::dict_query_like(&self.conn, code) {
            Err(e) => Err(LiushuError::Storage(crate::store::sql_error_message(&e))),
            Ok(rows) => Ok(rank_rows(rows, code)),
        }
    }
}

/// What the trie engine promises: every returned item's code is a key
/// of the trie extending the query, its text is among that key's texts,
/// and when no key extends the query the result is empty.
pub open spec fn trie_search_ok(
    m: Map<Seq<u8>, Seq<Seq<char>>>,
    code: Seq<char>,
    items: Seq<SearchResultItemV>,
) -> bool {
    &&& forall|i: int|
        0 <= i < items.len() ==> {
            let k = vstd::utf8::encode_utf8((#[trigger] items[i]).code);
            &&& m.contains_key(k)
            &&& spec_is_prefix(vstd::utf8::encode_utf8(code), k)
            &&& m[k].contains(items[i].text)
        }
    &&& (forall|k: Seq<u8>|
        m.contains_key(k) ==> !spec_is_prefix(vstd::utf8::encode_utf8(code), k)) ==> items.len()
        == 0
}

/// The trie engine: walks an in-memory prefix trie of codes and
/// resolves each text's weight and comment in the key-value store.
pub struct EngineWithRedb {
    db: redb::Database,
    trie: patricia_tree::PatriciaMap<Vec<String>>,
}

impl EngineWithRedb {
    /// What the engine's trie holds.
    pub closed spec fn trie_model(&self) -> Map<Seq<u8>, Seq<Seq<char>>> {
        crate::trie::code_trie_model(self.trie)
    }

    /// Loads an engine from an opened key-value store and the
    /// serialized bytes of a compiled trie. Bytes that serialize some
    /// trie contents always load, and load exactly those contents.
    pub fn with(db: redb::Database, trie_bytes: &Vec<u8>) -> (r: Result<Self, LiushuError>)
        ensures
            forall|t: patricia_tree::PatriciaMap<Vec<String>>|
                trie_bytes@ == #[trigger] crate::trie::code_trie_enc(t) ==> r is Ok && (
                r->Ok_0).trie_model() == crate::trie::code_trie_model(t),
            (r matches Err(e) ==> e is Storage),
    {
        match crate::trie::code_trie_from_bytes(trie_bytes) {
            Err(e) => Err(LiushuError::Storage(crate::trie::bincode_error_message(&e))),
            Ok(trie) => Ok(EngineWithRedb { db, trie }),
        }
    }
}

impl InputMethodEngine for EngineWithRedb {
    open spec fn search_pre(&self) -> bool {
        true
    }

    open spec fn search_ok(&self, code: Seq<char>, items: Seq<SearchResultItemV>) -> bool {
        trie_search_ok(self.trie_model(), code, items)
    }

    /// Walks every trie entry whose key extends `code`; for each text of
    /// each matching entry, resolves its weight and comment in the
    /// store, then joins the answers into result items. A text the store
    /// does not resolve is skipped, not an error; a code matching no key
    /// returns the empty result without touching the store, so it is
    /// never an error, and any error is a storage failure.
    fn search(&self, code: &str) -> (r: Result<Vec<SearchResultItem>, LiushuError>)
        ensures
            (forall|k: Seq<u8>|
                self.trie_model().contains_key(k) ==> !spec_is_prefix(
                    vstd::utf8::encode_utf8(code@),
                    k,
                )) ==> r is Ok,
            (r matches Err(e) ==> e is Storage),
    {
        let ghost m = self.trie_model();
        let cands = prefix_candidates(&self.trie, code);
        let mut answers: Vec<Option<(u64, Option<String>)>> = Vec::new();
        let mut i: usize = 0;
        while i < cands.len()
            invariant
                m == self.trie_model(),
                0 <= i <= cands@.len(),
                answers@.len() == i,
                forall|a: int|
                    0 <= a < cands@.len() ==> ({
                        let k = vstd::utf8::encode_utf8((#[trigger] cands@[a]).0@);
                        &&& m.contains_key(k)
                        &&& spec_is_prefix(vstd::utf8::encode_utf8(code@), k)
                        &&& m[k].contains(cands@[a].1@)
                    }),
            decreases cands.len() - i,
        {
            match crate::store::defs_lookup(&self.db, cands[i].1.as_str()) {
                Err(e) => {
                    proof {
                        let k = vstd::utf8::encode_utf8(cands@[i as int].0@);
                        assert(m.contains_key(k) && spec_is_prefix(
                            vstd::utf8::encode_utf8(code@),
                            k,
                        ));
                    }
                    return Err(LiushuError::Storage(crate::store::redb_error_message(&e)));
                },
                Ok(ans) => {
                    answers.push(ans);
                },
            }
            i = i + 1;
        }
        let out = join_results(&cands, &answers);
        proof {
            lemma_joined_sound(cand_views(cands@), answer_views(answers@));
            let ov = result_views(out@);
            assert forall|a: int|
                0 <= a < ov.len() implies ({
                let k = vstd::utf8::encode_utf8((#[trigger] ov[a]).code);
                &&& m.contains_key(k)
                &&& spec_is_prefix(vstd::utf8::encode_utf8(code@), k)
                &&& m[k].contains(ov[a].text)
            }) by {
                let b = choose|b: int|
                    0 <= b < cand_views(cands@).len() && (#[trigger] cand_views(cands@)[b]).0
                        == ov[a].code && cand_views(cands@)[b].1 == ov[a].text;
                assert(cands@[b].0@ == ov[a].code && cands@[b].1@ == ov[a].text);
            }
            if forall|k: Seq<u8>|
                m.contains_key(k) ==> !spec_is_prefix(vstd::utf8::encode_utf8(code@), k) {
                if cands@.len() > 0 {
                    assert(m.contains_key(vstd::utf8::encode_utf8(cands@[0].0@)));
                }
                assert(ov.len() == 0);
            }
        }
        Ok(out)
    }
}

/// A byte key that is the encoding of some character sequence.
pub open spec fn decodable(k: Seq<u8>) -> bool {
    vstd::utf8::encode_utf8(vstd::utf8::decode_utf8(k)) == k
}

/// The views of candidate pairs.
pub open spec fn cand_views(cands: Seq<(String, String)>) -> Seq<(Seq<char>, Seq<char>)> {
    cands.map_values(|p: (String, String)| (p.0@, p.1@))
}

/// The candidates one trie entry contributes: its decoded key paired
/// with each of its texts in order, or nothing when the key is not the
/// encoding of a string.
pub open spec fn entry_cands(p: (Vec<u8>, Vec<String>)) -> Seq<(Seq<char>, Seq<char>)> {
    if decodable(p.0@) {
        crate::trie::text_views(p.1@).map_values(
            |t: Seq<char>| (vstd::utf8::decode_utf8(p.0@), t),
        )
    } else {
        Seq::empty()
    }
}

/// The candidates of a sequence of trie entries, in entry order.
pub open spec fn entries_cands(pairs: Seq<(Vec<u8>, Vec<String>)>) -> Seq<(Seq<char>, Seq<char>)>
    decreases pairs.len(),
{
    if pairs.len() == 0 {
        Seq::empty()
    } else {
        entries_cands(pairs.drop_last()) + entry_cands(pairs.last())
    }
}

/// Whatever one entry contributes appears among the candidates of the
/// whole sequence.
proof fn lemma_entries_cands_complete(
    pairs: Seq<(Vec<u8>, Vec<String>)>,
    a: int,
    e: (Seq<char>, Seq<char>),
)
    requires
        0 <= a < pairs.len(),
        entry_cands(pairs[a]).contains(e),
    ensures
        entries_cands(pairs).contains(e),
    decreases pairs.len(),
{
    if a == pairs.len() - 1 {
        let j = choose|j: int|
            0 <= j < entry_cands(pairs.last()).len() && entry_cands(pairs.last())[j] == e;
        assert(entries_cands(pairs)[entries_cands(pairs.drop_last()).len() + j] == e);
    } else {
        assert(pairs.drop_last()[a] == pairs[a]);
        lemma_entries_cands_complete(pairs.drop_last(), a, e);
        let j = choose|j: int|
            0 <= j < entries_cands(pairs.drop_last()).len() && entries_cands(pairs.drop_last())[j]
                == e;
        assert(entries_cands(pairs)[j] == e);
    }
}

/// The candidate pairs for a query against a code trie: the union, over
/// every key that extends the query's byte encoding, of that key's
/// texts, as `(code, text)` pairs. Sound and complete: a pair appears
/// exactly when its code's encoding is a key extending the query and
/// its text stands in that key's list; when no key extends the query,
/// there are no candidates.
pub fn prefix_candidates(trie: &patricia_tree::PatriciaMap<Vec<String>>, code: &str) -> (r: Vec<
    (String, String),
>)
    ensures
        forall|i: int|
            0 <= i < r@.len() ==> ({
                let k = vstd::utf8::encode_utf8((#[trigger] r@[i]).0@);
                &&& crate::trie::code_trie_model(*trie).contains_key(k)
                &&& spec_is_prefix(vstd::utf8::encode_utf8(code@), k)
                &&& crate::trie::code_trie_model(*trie)[k].contains(r@[i].1@)
            }),
        forall|c: Seq<char>, x: Seq<char>|
            ({
                &&& crate::trie::code_trie_model(*trie).contains_key(vstd::utf8::encode_utf8(c))
                &&& spec_is_prefix(vstd::utf8::encode_utf8(code@), vstd::utf8::encode_utf8(c))
                &&& #[trigger] crate::trie::code_trie_model(*trie)[vstd::utf8::encode_utf8(
                    c,
                )].contains(x)
            }) ==> (exists|i: int|
                0 <= i < r@.len() && (#[trigger] r@[i]).0@ == c && r@[i].1@ == x),
        (forall|k: Seq<u8>|
            crate::trie::code_trie_model(*trie).contains_key(k) ==> !spec_is_prefix(
                vstd::utf8::encode_utf8(code@),
                k,
            )) ==> r@.len() == 0,
{
    let ghost m = crate::trie::code_trie_model(*trie);
    let pairs = crate::trie::code_trie_iter_prefix(trie, code);
    let mut out: Vec<(String, String)> = Vec::new();
    let mut i: usize = 0;
    proof {
        assert(pairs@.take(0) =~= Seq::<(Vec<u8>, Vec<String>)>::empty());
        assert(cand_views(out@) =~= entries_cands(pairs@.take(0)));
    }
    while i < pairs.len()
        invariant
            m == crate::trie::code_trie_model(*trie),
            0 <= i <= pairs@.len(),
            forall|a: int|
                0 <= a < pairs@.len() ==> ({
                    &&& m.contains_key((#[trigger] pairs@[a]).0@)
                    &&& m[pairs@[a].0@] == crate::trie::text_views(pairs@[a].1@)
                    &&& spec_is_prefix(vstd::utf8::encode_utf8(code@), pairs@[a].0@)
                }),
            forall|k: Seq<u8>|
                m.contains_key(k) && spec_is_prefix(vstd::utf8::encode_utf8(code@), k) ==> (
                exists|a: int| 0 <= a < pairs@.len() && (#[trigger] pairs@[a]).0@ == k),
            forall|b: int|
                0 <= b < out@.len() ==> ({
                    let k = vstd::utf8::encode_utf8((#[trigger] out@[b]).0@);
                    &&& m.contains_key(k)
                    &&& spec_is_prefix(vstd::utf8::encode_utf8(code@), k)
                    &&& m[k].contains(out@[b].1@)
                }),
            cand_views(out@) == entries_cands(pairs@.take(i as int)),
        decreases pairs.len() - i,
    {
        let ghost kb = pairs@[i as int].0@;
        proof {
            assert(pairs@.take(i + 1).drop_last() =~= pairs@.take(i as int));
            assert(pairs@.take(i + 1).last() == pairs@[i as int]);
        }
        let decoded = crate::trie::string_from_utf8(&pairs[i].0);
        match decoded {
            None => {
                proof {
                    if decodable(kb) {
                        assert(kb == vstd::utf8::encode_utf8(vstd::utf8::decode_utf8(kb)));
                        assert(decoded is Some);
                    }
                    assert(entry_cands(pairs@[i as int]) =~= Seq::<(Seq<char>, Seq<char>)>::empty());
                    assert(cand_views(out@) =~= entries_cands(pairs@.take(i + 1)));
                }
            },
            Some(code_str) => {
                proof {
                    vstd::utf8::encode_utf8_decode_utf8(code_str@);
                    assert(vstd::utf8::decode_utf8(kb) == code_str@);
                    assert(decodable(kb));
                }
                let texts = &pairs[i].1;
                let mut j: usize = 0;
                proof {
                    assert(crate::trie::text_views(texts@).take(0).map_values(
                        |t: Seq<char>| (code_str@, t),
                    ) =~= Seq::<(Seq<char>, Seq<char>)>::empty());
                    assert(cand_views(out@) + Seq::<(Seq<char>, Seq<char>)>::empty()
                        =~= cand_views(out@));
                }
                while j < texts.len()
                    invariant
                        m == crate::trie::code_trie_model(*trie),
                        0 <= i < pairs@.len(),
                        0 <= j <= texts@.len(),
                        texts == pairs@[i as int].1,
                        m.contains_key(pairs@[i as int].0@),
                        m[pairs@[i as int].0@] == crate::trie::text_views(texts@),
                        spec_is_prefix(vstd::utf8::encode_utf8(code@), pairs@[i as int].0@),
                        vstd::utf8::encode_utf8(code_str@) == pairs@[i as int].0@,
                        forall|b: int|
                            0 <= b < out@.len() ==> ({
                                let k = vstd::utf8::encode_utf8((#[trigger] out@[b]).0@);
                                &&& m.contains_key(k)
                                &&& spec_is_prefix(vstd::utf8::encode_utf8(code@), k)
                                &&& m[k].contains(out@[b].1@)
                            }),
                        cand_views(out@) == entries_cands(pairs@.take(i as int))
                            + crate::trie::text_views(texts@).take(j as int).map_values(
                            |t: Seq<char>| (code_str@, t),
                        ),
                    decreases texts.len() - j,
                {
                    let ghost old_out = out@;
                    out.push((code_str.clone(), texts[j].clone()));
                    proof {
                        assert(out@[old_out.len() as int].0@ == code_str@);
                        assert(out@[old_out.len() as int].1@ == crate::trie::text_views(
                            texts@,
                        )[j as int]);
                        assert(m[pairs@[i as int].0@].contains(
                            crate::trie::text_views(texts@)[j as int],
                        ));
                        assert(cand_views(out@) =~= cand_views(old_out).push(
                            (code_str@, crate::trie::text_views(texts@)[j as int]),
                        ));
                        assert(crate::trie::text_views(texts@).take(j + 1) =~= crate::trie::text_views(
                            texts@,
                        ).take(j as int).push(crate::trie::text_views(texts@)[j as int]));
                        assert(crate::trie::text_views(texts@).take(j + 1).map_values(
                            |t: Seq<char>| (code_str@, t),
                        ) =~= crate::trie::text_views(texts@).take(j as int).map_values(
                            |t: Seq<char>| (code_str@, t),
                        ).push((code_str@, crate::trie::text_views(texts@)[j as int])));
                        assert(cand_views(out@) =~= entries_cands(pairs@.take(i as int))
                            + crate::trie::text_views(texts@).take(j + 1).map_values(
                            |t: Seq<char>| (code_str@, t),
                        ));
                    }
                    j = j + 1;
                }
                proof {
                    assert(crate::trie::text_views(texts@).take(texts@.len() as int)
                        =~= crate::trie::text_views(texts@));
                    assert(entry_cands(pairs@[i as int]) =~= crate::trie::text_views(
                        texts@,
                    ).map_values(|t: Seq<char>| (code_str@, t)));
                    assert(cand_views(out@) =~= entries_cands(pairs@.take(i + 1)));
                }
            },
        }
        i = i + 1;
    }
    proof {
        assert(pairs@.take(pairs@.len() as int) =~= pairs@);
        assert(cand_views(out@) == entries_cands(pairs@));
        assert forall|c: Seq<char>, x: Seq<char>|
            ({
                &&& m.contains_key(vstd::utf8::encode_utf8(c))
                &&& spec_is_prefix(vstd::utf8::encode_utf8(code@), vstd::utf8::encode_utf8(c))
                &&& #[trigger] m[vstd::utf8::encode_utf8(c)].contains(x)
            }) implies (exists|b: int|
            0 <= b < out@.len() && (#[trigger] out@[b]).0@ == c && out@[b].1@ == x) by {
            let k = vstd::utf8::encode_utf8(c);
            let a = choose|a: int| 0 <= a < pairs@.len() && (#[trigger] pairs@[a]).0@ == k;
            vstd::utf8::encode_utf8_decode_utf8(c);
            assert(decodable(k));
            let tv = crate::trie::text_views(pairs@[a].1@);
            assert(m[k] == tv);
            let j = choose|j: int| 0 <= j < tv.len() && tv[j] == x;
            assert(entry_cands(pairs@[a])[j] == (c, x));
            assert(entry_cands(pairs@[a]).contains((c, x)));
            lemma_entries_cands_complete(pairs@, a, (c, x));
            let b = choose|b: int|
                0 <= b < cand_views(out@).len() && cand_views(out@)[b] == (c, x);
            assert(out@[b].0@ == c && out@[b].1@ == x);
        }
        if forall|k: Seq<u8>|
            m.contains_key(k) ==> !spec_is_prefix(vstd::utf8::encode_utf8(code@), k) {
            if out@.len() > 0 {
                assert(m.contains_key(vstd::utf8::encode_utf8(out@[0].0@)));
            }
        }
    }
    out
}

/// The views of a sequence of store answers.
pub open spec fn answer_views(answers: Seq<Option<(u64, Option<String>)>>) -> Seq<
    Option<(u64, Option<Seq<char>>)>,
> {
    answers.map_values(
        |a: Option<(u64, Option<String>)>|
            match a {
                None => None,
                Some(d) => Some((d.0, crate::dict::opt_str_view(d.1))),
            },
    )
}

/// The join of candidates with their store answers: one result item per
/// candidate whose text the store resolved, in candidate order, each
/// carrying its candidate's code and text and its answer's weight and
/// comment; unresolved candidates are skipped.
pub open spec fn joined(
    cands: Seq<(Seq<char>, Seq<char>)>,
    answers: Seq<Option<(u64, Option<Seq<char>>)>>,
) -> Seq<SearchResultItemV>
    decreases cands.len(),
{
    if cands.len() == 0 {
        Seq::empty()
    } else {
        joined(cands.drop_last(), answers.drop_last()) + (match answers.last() {
            None => Seq::empty(),
            Some(d) => seq![
                SearchResultItemV {
                    text: cands.last().1,
                    code: cands.last().0,
                    weight: d.0,
                    comment: d.1,
                },
            ],
        })
    }
}

/// Every joined item carries some candidate's code and text.
proof fn lemma_joined_sound(
    cands: Seq<(Seq<char>, Seq<char>)>,
    answers: Seq<Option<(u64, Option<Seq<char>>)>>,
)
    requires
        answers.len() == cands.len(),
    ensures
        forall|i: int|
            #![trigger joined(cands, answers)[i]]
            0 <= i < joined(cands, answers).len() ==> (exists|b: int|
                0 <= b < cands.len() && (#[trigger] cands[b]).0 == joined(cands, answers)[i].code
                    && cands[b].1 == joined(cands, answers)[i].text),
    decreases cands.len(),
{
    if cands.len() > 0 {
        lemma_joined_sound(cands.drop_last(), answers.drop_last());
        let left = joined(cands.drop_last(), answers.drop_last());
        assert forall|i: int|
            #![trigger joined(cands, answers)[i]]
            0 <= i < joined(cands, answers).len() implies (exists|b: int|
            0 <= b < cands.len() && (#[trigger] cands[b]).0 == joined(cands, answers)[i].code
                && cands[b].1 == joined(cands, answers)[i].text) by {
            if i < left.len() {
                let b = choose|b: int|
                    0 <= b < cands.drop_last().len() && (#[trigger] cands.drop_last()[b]).0
                        == left[i].code && cands.drop_last()[b].1 == left[i].text;
                assert(cands[b].0 == joined(cands, answers)[i].code && cands[b].1 == joined(
                    cands,
                    answers,
                )[i].text);
            } else {
                assert(cands[cands.len() - 1].0 == joined(cands, answers)[i].code && cands[
                    cands.len() - 1].1 == joined(cands, answers)[i].text);
            }
        }
    }
}

/// Joins candidates with the store's answers, executably: exactly the
/// `joined` sequence of the two inputs.
pub fn join_results(
    cands: &Vec<(String, String)>,
    answers: &Vec<Option<(u64, Option<String>)>>,
) -> (r: Vec<SearchResultItem>)
    requires
        cands@.len() == answers@.len(),
    ensures
        result_views(r@) == joined(cand_views(cands@), answer_views(answers@)),
{
    let mut out: Vec<SearchResultItem> = Vec::new();
    let mut i: usize = 0;
    proof {
        assert(cand_views(cands@).take(0) =~= Seq::<(Seq<char>, Seq<char>)>::empty());
        assert(result_views(out@) =~= joined(
            cand_views(cands@).take(0),
            answer_views(answers@).take(0),
        ));
    }
    while i < cands.len()
        invariant
            0 <= i <= cands@.len() == answers@.len(),
            result_views(out@) == joined(
                cand_views(cands@).take(i as int),
                answer_views(answers@).take(i as int),
            ),
        decreases cands.len() - i,
    {
        let ghost old_out = out@;
        match &answers[i] {
            None => {},
            Some(d) => {
                let item = SearchResultItem {
                    text: cands[i].1.clone(),
                    code: cands[i].0.clone(),
                    weight: d.0,
                    comment: match &d.1 {
                        Some(c) => Some(c.clone()),
                        None => None,
                    },
                };
                proof {
                    assert(item@ == (SearchResultItemV {
                        text: cand_views(cands@)[i as int].1,
                        code: cand_views(cands@)[i as int].0,
                        weight: answer_views(answers@)[i as int]->Some_0.0,
                        comment: answer_views(answers@)[i as int]->Some_0.1,
                    }));
                }
                out.push(item);
            },
        }
        proof {
            assert(cand_views(cands@).take(i + 1).drop_last() =~= cand_views(cands@).take(
                i as int,
            ));
            assert(answer_views(answers@).take(i + 1).drop_last() =~= answer_views(
                answers@,
            ).take(i as int));
            assert(cand_views(cands@).take(i + 1).last() == cand_views(cands@)[i as int]);
            assert(answer_views(answers@).take(i + 1).last() == answer_views(
                answers@,
            )[i as int]);
            match answer_views(answers@)[i as int] {
                None => {
                    assert(result_views(out@) =~= joined(
                        cand_views(cands@).take(i + 1),
                        answer_views(answers@).take(i + 1),
                    ));
                },
                Some(d) => {
                    assert(result_views(out@) =~= result_views(old_out).push(
                        SearchResultItemV {
                            text: cand_views(cands@)[i as int].1,
                            code: cand_views(cands@)[i as int].0,
                            weight: d.0,
                            comment: d.1,
                        },
                    ));
                    assert(result_views(out@) =~= joined(
                        cand_views(cands@).take(i + 1),
                        answer_views(answers@).take(i + 1),
                    ));
                },
            }
        }
        i = i + 1;
    }
    proof {
        assert(cand_views(cands@).take(cands@.len() as int) =~= cand_views(cands@));
        assert(answer_views(answers@).take(answers@.len() as int) =~= answer_views(answers@));
    }
    out
}

/// Index of the first formula id equal to `id`, or `ids.len()` if none.
pub open spec fn first_id_match(ids: Seq<Seq<char>>, id: Seq<char>) -> nat
    decreases ids.len(),
{
    if ids.len() == 0 {
        0
    } else if ids[0] == id {
        0
    } else {
        1 + first_id_match(ids.drop_first(), id)
    }
}

proof fn lemma_first_id_match_is(ids: Seq<Seq<char>>, id: Seq<char>, k: int)
    requires
        0 <= k <= ids.len(),
        forall|m: int| 0 <= m < k ==> ids[m] != id,
        k < ids.len() ==> ids[k] == id,
    ensures
        first_id_match(ids, id) == k,
    decreases ids.len(),
{
    if k == 0 {
        if ids.len() > 0 {
            assert(ids[0] == id);
        }
    } else {
        assert(ids[0] != id);
        let t = ids.drop_first();
        assert forall|m: int| 0 <= m < k - 1 implies t[m] != id by {
            assert(t[m] == ids[m + 1]);
        }
        assert(k - 1 < t.len() ==> t[k - 1] == id);
        lemma_first_id_match_is(t, id, k - 1);
    }
}

/// Binds formula ids to their loaded engines: the formula at the front
/// is active, serves every search, and can be exchanged by id.
pub struct Engine<E: InputMethodEngine> {
    formula_ids: Vec<String>,
    manager: EngineManager<E>,
}

impl<E: InputMethodEngine> Engine<E> {
    /// The bound formula ids, active one first.
    pub closed spec fn ids_seq(&self) -> Seq<Seq<char>> {
        self.formula_ids@.map_values(|s: String| s@)
    }

    /// The engines, in the same order as the ids.
    pub closed spec fn engines_seq(&self) -> Seq<E> {
        self.manager.engines_seq()
    }

    /// Binds each formula id to the engine loaded from its artifacts;
    /// the first pair is initially active.
    pub fn init(formula_ids: Vec<String>, engines: Vec<E>) -> (r: Self)
        requires
            formula_ids@.len() == engines@.len(),
        ensures
            r.ids_seq() == formula_ids@.map_values(|s: String| s@),
            r.engines_seq() == engines@,
    {
        Engine { formula_ids, manager: EngineManager::from(engines) }
    }

    /// Makes the formula `id` active by exchanging it with the front.
    /// An unknown id is a `FormulaNotFound` error and changes nothing:
    /// the previously active formula keeps serving searches.
    pub fn set_active_formula(&mut self, id: &str) -> (r: Result<(), LiushuError>)
        requires
            old(self).ids_seq().len() == old(self).engines_seq().len(),
        ensures
            match r {
                Ok(_) => {
                    &&& exists|k: int|
                        0 <= k < old(self).ids_seq().len() && old(self).ids_seq()[k] == id@
                    &&& final(self).ids_seq() == promoted(
                        old(self).ids_seq(),
                        first_id_match(old(self).ids_seq(), id@) as int,
                    )
                    &&& final(self).engines_seq() == promoted(
                        old(self).engines_seq(),
                        first_id_match(old(self).ids_seq(), id@) as int,
                    )
                },
                Err(e) => {
                    &&& e is FormulaNotFound
                    &&& forall|k: int|
                        0 <= k < old(self).ids_seq().len() ==> old(self).ids_seq()[k] != id@
                    &&& final(self).ids_seq() == old(self).ids_seq()
                    &&& final(self).engines_seq() == old(self).engines_seq()
                },
            },
    {
        let ghost ids0 = self.ids_seq();
        let mut k: usize = 0;
        let n = self.formula_ids.len();
        while k < n
            invariant
                0 <= k <= n == self.formula_ids@.len(),
                ids0 == self.ids_seq(),
                ids0 == old(self).ids_seq(),
                self.manager == old(self).manager,
                old(self).ids_seq().len() == old(self).engines_seq().len(),
                forall|m: int| 0 <= m < k ==> ids0[m] != id@,
            decreases n - k,
        {
            if str_eq(self.formula_ids[k].as_str(), id) {
                proof {
                    assert(ids0[k as int] == id@);
                    lemma_first_id_match_is(ids0, id@, k as int);
                }
                if k != 0 {
                    let ghost v = self.formula_ids@;
                    let idk = self.formula_ids.remove(k);
                    let id0 = self.formula_ids.remove(0);
                    self.formula_ids.insert(0, idk);
                    self.formula_ids.insert(k, id0);
                    proof {
                        let t = self.formula_ids@;
                        assert forall|m: int| 0 <= m < t.len() implies t[m] == promoted(
                            v,
                            k as int,
                        )[m] by {
                            if m == 0 {
                            } else if m < k {
                                assert(t[m] == v.remove(k as int).remove(0).insert(
                                    0,
                                    v[k as int],
                                )[m]);
                            } else if m == k {
                            } else {
                                assert(t[m] == v.remove(k as int).remove(0)[m - 2]);
                                assert(v.remove(k as int)[m - 1] == v[m]);
                            }
                        }
                        assert(t =~= promoted(v, k as int));
                        assert(self.ids_seq() =~= promoted(ids0, k as int));
                    }
                } else {
                    proof {
                        assert(promoted(ids0, 0) =~= ids0);
                    }
                }
                self.manager.set_active_engine(k);
                return Ok(());
            }
            k = k + 1;
        }
        Err(LiushuError::FormulaNotFound(String::from_str(id)))
    }
}

impl<E: InputMethodEngine> InputMethodEngine for Engine<E> {
    open spec fn search_pre(&self) -> bool {
        self.engines_seq().len() > 0 && self.engines_seq()[0].search_pre()
    }

    /// Searching goes through the currently active formula's engine.
    open spec fn search_ok(&self, code: Seq<char>, items: Seq<SearchResultItemV>) -> bool {
        self.engines_seq().len() > 0 && self.engines_seq()[0].search_ok(code, items)
    }

    fn search(&self, code: &str) -> (r: Result<Vec<SearchResultItem>, LiushuError>) {
        self.manager.search(code)
    }
}

/// An element at two positions makes its multiset count at least two.
proof fn lemma_count_two(s: Seq<SearchResultItemV>, i: int, j: int)
    requires
        0 <= i < j < s.len(),
        s[i] == s[j],
    ensures
        s.to_multiset().count(s[i]) >= 2,
{
    broadcast use vstd::seq_lib::group_to_multiset_ensures;

    to_multiset_remove(s, i);
    let r = s.remove(i);
    assert(r[j - 1] == s[j]);
    assert(r.contains(s[j]));
    assert(r.to_multiset().count(s[i]) >= 1);
}

/// A multiset holding an element twice comes from a sequence holding it
/// at two positions.
proof fn lemma_multiset_dup_in_seq(s: Seq<SearchResultItemV>, x: SearchResultItemV)
    requires
        s.to_multiset().count(x) >= 2,
    ensures
        exists|i: int, j: int| 0 <= i < j < s.len() && s[i] == x && s[j] == x,
{
    broadcast use vstd::seq_lib::group_to_multiset_ensures;

    assert(s.to_multiset().contains(x));
    assert(s.contains(x));
    let i = choose|i: int| 0 <= i < s.len() && s[i] == x;
    to_multiset_remove(s, i);
    let r = s.remove(i);
    assert(r.to_multiset().count(x) >= 1);
    assert(r.to_multiset().contains(x));
    assert(r.contains(x));
    let j = choose|j: int| 0 <= j < r.len() && r[j] == x;
    if j < i {
        assert(s[j] == x && s[i] == x);
    } else {
        assert(s[i] == x && s[j + 1] == x);
    }
}

/// Rearranging a sequence keeps its texts pairwise distinct.
proof fn lemma_distinct_texts_transfer(s1: Seq<SearchResultItemV>, s2: Seq<SearchResultItemV>)
    requires
        s1.to_multiset() == s2.to_multiset(),
        forall|p: int, q: int| 0 <= p < q < s2.len() ==> s2[p].text != s2[q].text,
    ensures
        forall|i: int, j: int| 0 <= i < j < s1.len() ==> s1[i].text != s1[j].text,
{
    broadcast use vstd::seq_lib::group_to_multiset_ensures;

    assert forall|i: int, j: int| 0 <= i < j < s1.len() implies s1[i].text != s1[j].text by {
        if s1[i].text == s1[j].text {
            if s1[i] == s1[j] {
                lemma_count_two(s1, i, j);
                lemma_multiset_dup_in_seq(s2, s1[i]);
                let (p, q) = choose|p: int, q: int|
                    0 <= p < q < s2.len() && s2[p] == s1[i] && s2[q] == s1[i];
                assert(s2[p].text == s2[q].text);
            } else {
                assert(s1.to_multiset().contains(s1[i]));
                assert(s1.to_multiset().contains(s1[j]));
                assert(s2.contains(s1[i]));
                assert(s2.contains(s1[j]));
                let p = choose|p: int| 0 <= p < s2.len() && s2[p] == s1[i];
                let q = choose|q: int| 0 <= q < s2.len() && s2[q] == s1[j];
                assert(p != q);
                assert(s2[p].text == s2[q].text);
            }
        }
    }
}

} // verus!
