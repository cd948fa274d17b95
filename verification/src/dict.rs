//! The dictionary data model and the parser for the tab-separated
//! dictionary source format.
//!
//! A dictionary source is a text whose lines are either skippable
//! (empty, or starting with `#`) or rows of three or four tab-separated
//! fields: `text`, `code`, `weight` and an optional `comment`. The whole
//! grammar is given by spec functions here, and the executable parser is
//! proved to decide it exactly.

use vstd::prelude::*;

use crate::error::LiushuError;

verus! {

/// One dictionary record: a candidate text, the code it is typed by, its
/// ranking weight and an optional comment.
pub struct DictItem {
    pub text: String,
    pub code: String,
    pub weight: u32,
    pub comment: Option<String>,
}

/// The mathematical model of a `DictItem`.
pub struct DictItemV {
    pub text: Seq<char>,
    pub code: Seq<char>,
    pub weight: u32,
    pub comment: Option<Seq<char>>,
}

impl View for DictItem {
    type V = DictItemV;

    open spec fn view(&self) -> DictItemV {
        DictItemV {
            text: self.text@,
            code: self.code@,
            weight: self.weight,
            comment: match self.comment {
                Some(c) => Some(c@),
                None => None,
            },
        }
    }
}

/// The models of a sequence of records.
pub open spec fn views(items: Seq<DictItem>) -> Seq<DictItemV> {
    items.map_values(|it: DictItem| it@)
}

/// Index of the first occurrence of `sep` in `s`, or `s.len()` if none.
pub open spec fn first_idx(s: Seq<char>, sep: char) -> nat
    decreases s.len(),
{
    if s.len() == 0 {
        0
    } else if s[0] == sep {
        0
    } else {
        1 + first_idx(s.drop_first(), sep)
    }
}

/// `first_idx` is the unique position with no separator before it that is
/// either the end of `s` or a separator.
proof fn lemma_first_idx_is(s: Seq<char>, sep: char, k: int)
    requires
        0 <= k <= s.len(),
        forall|m: int| 0 <= m < k ==> s[m] != sep,
        k < s.len() ==> s[k] == sep,
    ensures
        first_idx(s, sep) == k,
    decreases s.len(),
{
    if k == 0 {
        if s.len() > 0 {
            assert(s[0] == sep);
        }
    } else {
        assert(s[0] != sep);
        let t = s.drop_first();
        assert forall|m: int| 0 <= m < k - 1 implies t[m] != sep by {
            assert(t[m] == s[m + 1]);
        }
        assert(k - 1 < t.len() ==> t[k - 1] == sep);
        lemma_first_idx_is(t, sep, k - 1);
    }
}

/// `s` split on `sep`: the separated pieces, in order, none containing
/// `sep`. An empty `s` yields one empty piece.
pub open spec fn split_on(s: Seq<char>, sep: char) -> Seq<Seq<char>>
    decreases s.len(),
{
    let fi = first_idx(s, sep) as int;
    if fi >= s.len() {
        seq![s]
    } else {
        seq![s.take(fi)] + split_on(s.skip(fi + 1), sep)
    }
}

/// Splits `s` at every occurrence of `sep`.
fn split_str(s: &str, sep: char) -> (r: Vec<String>)
    ensures
        r@.map_values(|p: String| p@) == split_on(s@, sep),
{
    let n: usize = s.unicode_len();
    let mut pieces: Vec<String> = Vec::new();
    let mut p: usize = 0;
    let mut j: usize = 0;
    proof {
        assert(s@.skip(0) == s@);
    }
    while j < n
        invariant
            0 <= p <= j <= n == s@.len(),
            pieces@.map_values(|q: String| q@) + split_on(s@.skip(p as int), sep) == split_on(
                s@,
                sep,
            ),
            forall|m: int| p <= m < j ==> s@[m] != sep,
        decreases n - j,
    {
        let c = s.get_char(j);
        if c == sep {
            let piece = s.substring_char(p, j);
            proof {
                let tail = s@.skip(p as int);
                assert forall|m: int| 0 <= m < j - p implies tail[m] != sep by {
                    assert(tail[m] == s@[m + p]);
                }
                assert(j - p < tail.len() ==> tail[j - p] == sep);
                lemma_first_idx_is(tail, sep, j - p);
                assert(tail.take(j - p) =~= s@.subrange(p as int, j as int));
                assert(tail.skip(j - p + 1) =~= s@.skip(j + 1));
                assert(split_on(tail, sep) == seq![s@.subrange(p as int, j as int)] + split_on(
                    s@.skip(j + 1),
                    sep,
                ));
            }
            let ghost old_pieces = pieces@;
            pieces.push(String::from_str(piece));
            proof {
                assert(pieces@.map_values(|q: String| q@) =~= old_pieces.map_values(
                    |q: String| q@,
                ) + seq![s@.subrange(p as int, j as int)]);
            }
            p = j + 1;
        }
        j = j + 1;
    }
    let last = s.substring_char(p, n);
    let ghost old_pieces = pieces@;
    pieces.push(String::from_str(last));
    proof {
        let tail = s@.skip(p as int);
        assert forall|m: int| 0 <= m < tail.len() implies tail[m] != sep by {
            assert(tail[m] == s@[m + p]);
        }
        lemma_first_idx_is(tail, sep, tail.len() as int);
        assert(split_on(tail, sep) == seq![tail]);
        assert(tail =~= s@.subrange(p as int, n as int));
        assert(pieces@.map_values(|q: String| q@) =~= old_pieces.map_values(|q: String| q@)
            + seq![tail]);
    }
    pieces
}

/// A decimal digit.
pub open spec fn is_digit(c: char) -> bool {
    48 <= c as u32 <= 57
}

/// All characters of `s` are decimal digits.
pub open spec fn all_digits(s: Seq<char>) -> bool {
    forall|i: int| 0 <= i < s.len() ==> is_digit(s[i])
}

/// The integer value of `s` read as a decimal numeral.
pub open spec fn dec_val(s: Seq<char>) -> int
    decreases s.len(),
{
    if s.len() == 0 {
        0
    } else {
        dec_val(s.drop_last()) * 10 + (s.last() as u32 - 48)
    }
}

/// The weight field parses when it is a non-empty string of digits whose
/// value fits in 32 bits.
pub open spec fn parse_weight(s: Seq<char>) -> Option<u32> {
    if s.len() > 0 && all_digits(s) && dec_val(s) <= u32::MAX {
        Some(dec_val(s) as u32)
    } else {
        None
    }
}

proof fn lemma_dec_val_nonneg(s: Seq<char>)
    requires
        all_digits(s),
    ensures
        dec_val(s) >= 0,
    decreases s.len(),
{
    if s.len() > 0 {
        assert(all_digits(s.drop_last()));
        lemma_dec_val_nonneg(s.drop_last());
        assert(is_digit(s.last()));
    }
}

proof fn lemma_dec_val_mono(s: Seq<char>, k: int)
    requires
        all_digits(s),
        0 <= k <= s.len(),
    ensures
        dec_val(s) >= dec_val(s.take(k)),
    decreases s.len() - k,
{
    if k < s.len() {
        lemma_dec_val_mono(s, k + 1);
        let t = s.take(k + 1);
        assert(t.drop_last() =~= s.take(k));
        assert(all_digits(s.take(k)));
        lemma_dec_val_nonneg(s.take(k));
        assert(is_digit(t.last()));
        assert(dec_val(t) == dec_val(s.take(k)) * 10 + (t.last() as u32 - 48));
    } else {
        assert(s.take(k) =~= s);
    }
}

/// Reads a decimal weight, exactly when the grammar admits one.
fn parse_weight_str(s: &str) -> (r: Option<u32>)
    ensures
        r == parse_weight(s@),
{
    let n: usize = s.unicode_len();
    if n == 0 {
        return None;
    }
    let mut acc: u32 = 0;
    let mut i: usize = 0;
    proof {
        assert(s@.take(0) =~= Seq::<char>::empty());
    }
    while i < n
        invariant
            0 <= i <= n == s@.len(),
            all_digits(s@.take(i as int)),
            acc == dec_val(s@.take(i as int)),
        decreases n - i,
    {
        let c = s.get_char(i);
        let u: u32 = c as u32;
        if u < 48 || u > 57 {
            proof {
                assert(!is_digit(s@[i as int]));
            }
            return None;
        }
        let d: u32 = u - 48;
        proof {
            let t = s@.take(i + 1);
            assert(t.drop_last() =~= s@.take(i as int));
            assert(t.last() == s@[i as int]);
            assert(all_digits(t));
        }
        if acc > (u32::MAX - d) / 10 {
            proof {
                assert(dec_val(s@.take(i + 1)) > u32::MAX) by (nonlinear_arith)
                    requires
                        dec_val(s@.take(i + 1)) == acc * 10 + d,
                        acc > (u32::MAX - d) / 10,
                        d <= 9,
                ;
                if all_digits(s@) {
                    lemma_dec_val_mono(s@, i + 1);
                    assert(dec_val(s@) > u32::MAX);
                }
            }
            return None;
        }
        acc = acc * 10 + d;
        i = i + 1;
    }
    proof {
        assert(s@.take(n as int) =~= s@);
        lemma_dec_val_nonneg(s@);
    }
    Some(acc)
}

/// A line that carries no row: empty, or a `#` comment.
pub open spec fn skippable(line: Seq<char>) -> bool {
    line.len() == 0 || line[0] == '#'
}

/// A row parses when it has three or four tab-separated fields, non-empty
/// `text` and `code`, and a well-formed weight. A missing or empty fourth
/// field is an absent comment.
pub open spec fn parse_row(line: Seq<char>) -> Option<DictItemV> {
    let f = split_on(line, '\t');
    if (f.len() == 3 || f.len() == 4) && f[0].len() > 0 && f[1].len() > 0 && parse_weight(f[2])
        is Some {
        Some(
            DictItemV {
                text: f[0],
                code: f[1],
                weight: parse_weight(f[2])->Some_0,
                comment: if f.len() == 4 && f[3].len() > 0 {
                    Some(f[3])
                } else {
                    None
                },
            },
        )
    } else {
        None
    }
}

/// Parses one row line.
fn parse_row_str(line: &str) -> (r: Option<DictItem>)
    ensures
        match r {
            Some(item) => parse_row(line@) == Some(item@),
            None => parse_row(line@) is None,
        },
{
    let fields = split_str(line, '\t');
    let nf = fields.len();
    proof {
        assert(fields@.map_values(|p: String| p@).len() == nf);
    }
    if nf != 3 && nf != 4 {
        return None;
    }
    let text = &fields[0];
    let code = &fields[1];
    proof {
        assert(fields@.map_values(|p: String| p@)[0] == text@);
        assert(fields@.map_values(|p: String| p@)[1] == code@);
        assert(fields@.map_values(|p: String| p@)[2] == fields@[2]@);
    }
    if text.as_str().unicode_len() == 0 || code.as_str().unicode_len() == 0 {
        return None;
    }
    let weight = match parse_weight_str(fields[2].as_str()) {
        Some(w) => w,
        None => {
            return None;
        },
    };
    let comment: Option<String> = if nf == 4 && fields[3].as_str().unicode_len() > 0 {
        proof {
            assert(fields@.map_values(|p: String| p@)[3] == fields@[3]@);
        }
        Some(fields[3].clone())
    } else {
        proof {
            if nf == 4 {
                assert(fields@.map_values(|p: String| p@)[3] == fields@[3]@);
            }
        }
        None
    };
    Some(
        DictItem {
            text: text.clone(),
            code: code.clone(),
            weight,
            comment,
        },
    )
}

/// Parses the rows of a sequence of lines; `None` when any non-skippable
/// line is malformed.
pub open spec fn parse_lines(ls: Seq<Seq<char>>) -> Option<Seq<DictItemV>>
    decreases ls.len(),
{
    if ls.len() == 0 {
        Some(Seq::empty())
    } else if skippable(ls[0]) {
        parse_lines(ls.drop_first())
    } else {
        match parse_row(ls[0]) {
            None => None,
            Some(item) => match parse_lines(ls.drop_first()) {
                None => None,
                Some(rest) => Some(seq![item] + rest),
            },
        }
    }
}

/// What a whole dictionary source text denotes: its rows in order, or
/// nothing when some row is malformed.
pub open spec fn parse_source(content: Seq<char>) -> Option<Seq<DictItemV>> {
    parse_lines(split_on(content, '\n'))
}

/// Parses a dictionary source. Returns the rows in order, or a parse
/// error exactly when the grammar rejects the text.
pub fn parse_dict_source(content: &str) -> (r: Result<Vec<DictItem>, LiushuError>)
    ensures
        match r {
            Ok(items) => parse_source(content@) == Some(views(items@)),
            Err(e) => parse_source(content@) is None && e is Parse,
        },
{
    let lines = split_str(content, '\n');
    let ghost ls = lines@.map_values(|p: String| p@);
    let mut items: Vec<DictItem> = Vec::new();
    let mut i: usize = 0;
    proof {
        assert(ls.skip(0) == ls);
    }
    while i < lines.len()
        invariant
            0 <= i <= lines.len(),
            ls == lines@.map_values(|p: String| p@),
            ls == split_on(content@, '\n'),
            ls.len() == lines.len(),
            parse_lines(ls) == match parse_lines(ls.skip(i as int)) {
                None => None::<Seq<DictItemV>>,
                Some(rest) => Some(views(items@) + rest),
            },
        decreases lines.len() - i,
    {
        let line = &lines[i];
        proof {
            assert(ls[i as int] == line@);
            assert(ls.skip(i as int).drop_first() =~= ls.skip(i + 1));
            assert(ls.skip(i as int)[0] == line@);
        }
        let skip_line = {
            let ln = line.as_str().unicode_len();
            if ln == 0 {
                true
            } else {
                s_char_is(line.as_str(), '#')
            }
        };
        if !skip_line {
            match parse_row_str(line.as_str()) {
                None => {
                    proof {
                        assert(ls.skip(i as int).len() > 0);
                        assert(!skippable(ls.skip(i as int)[0]));
                        assert(parse_lines(ls.skip(i as int)) is None);
                    }
                    return Err(
                        LiushuError::Parse(String::from_str("malformed dictionary row")),
                    );
                },
                Some(item) => {
                    let ghost old_items = items@;
                    items.push(item);
                    proof {
                        assert(views(items@) =~= views(old_items) + seq![item@]);
                        if parse_lines(ls.skip(i + 1)) is Some {
                            assert(views(items@) + parse_lines(ls.skip(i + 1))->Some_0
                                =~= views(old_items) + (seq![item@] + parse_lines(
                                ls.skip(i + 1),
                            )->Some_0));
                        }
                    }
                },
            }
        }
        i = i + 1;
    }
    proof {
        assert(ls.skip(ls.len() as int) =~= Seq::<Seq<char>>::empty());
        assert(views(items@) + Seq::<DictItemV>::empty() =~= views(items@));
    }
    Ok(items)
}

/// True when the first character of non-empty `s` is `c`.
fn s_char_is(s: &str, c: char) -> (r: bool)
    requires
        s@.len() > 0,
    ensures
        r == (s@[0] == c),
{
    s.get_char(0) == c
}

/// Parses several dictionary sources and concatenates their rows in
/// order; any malformed row rejects the whole set.
pub open spec fn parse_sources_spec(sources: Seq<Seq<char>>) -> Option<Seq<DictItemV>>
    decreases sources.len(),
{
    if sources.len() == 0 {
        Some(Seq::empty())
    } else {
        match parse_source(sources[0]) {
            None => None,
            Some(items) => match parse_sources_spec(sources.drop_first()) {
                None => None,
                Some(rest) => Some(items + rest),
            },
        }
    }
}

/// Parses every source text of a formula, in order.
pub fn parse_sources(sources: &Vec<String>) -> (r: Result<Vec<DictItem>, LiushuError>)
    ensures
        match r {
            Ok(items) => parse_sources_spec(sources@.map_values(|p: String| p@)) == Some(
                views(items@),
            ),
            Err(e) => parse_sources_spec(sources@.map_values(|p: String| p@)) is None && e
                is Parse,
        },
{
    let ghost ss = sources@.map_values(|p: String| p@);
    let mut items: Vec<DictItem> = Vec::new();
    let mut i: usize = 0;
    proof {
        assert(ss.skip(0) == ss);
    }
    while i < sources.len()
        invariant
            0 <= i <= sources.len(),
            ss == sources@.map_values(|p: String| p@),
            ss.len() == sources.len(),
            parse_sources_spec(ss) == match parse_sources_spec(ss.skip(i as int)) {
                None => None::<Seq<DictItemV>>,
                Some(rest) => Some(views(items@) + rest),
            },
        decreases sources.len() - i,
    {
        proof {
            assert(ss.skip(i as int).drop_first() =~= ss.skip(i + 1));
            assert(ss.skip(i as int)[0] == sources@[i as int]@);
        }
        match parse_dict_source(sources[i].as_str()) {
            Err(e) => {
                return Err(e);
            },
            Ok(mut batch) => {
                let ghost old_items = items@;
                let ghost batch_v = views(batch@);
                items.append(&mut batch);
                proof {
                    assert(views(items@) =~= views(old_items) + batch_v);
                    if parse_sources_spec(ss.skip(i + 1)) is Some {
                        assert(views(items@) + parse_sources_spec(ss.skip(i + 1))->Some_0
                            =~= views(old_items) + (batch_v + parse_sources_spec(
                            ss.skip(i + 1),
                        )->Some_0));
                    }
                }
            },
        }
        i = i + 1;
    }
    proof {
        assert(ss.skip(ss.len() as int) =~= Seq::<Seq<char>>::empty());
        assert(views(items@) + Seq::<DictItemV>::empty() =~= views(items@));
    }
    Ok(items)
}


/// The set of texts occurring in `items`.
pub open spec fn item_texts(items: Seq<DictItemV>) -> Set<Seq<char>> {
    Set::new(|t: Seq<char>| exists|i: int| 0 <= i < items.len() && items[i].text == t)
}

/// The set of codes occurring in `items`.
pub open spec fn item_codes(items: Seq<DictItemV>) -> Set<Seq<char>> {
    Set::new(|c: Seq<char>| exists|i: int| 0 <= i < items.len() && items[i].code == c)
}

/// The items carrying `code`, in input order.
pub open spec fn items_for_code(items: Seq<DictItemV>, code: Seq<char>) -> Seq<DictItemV> {
    items.filter(|it: DictItemV| it.code == code)
}

/// The texts bound to `code`, in input order, duplicates kept.
pub open spec fn texts_for_code(items: Seq<DictItemV>, code: Seq<char>) -> Seq<Seq<char>> {
    items_for_code(items, code).map_values(|it: DictItemV| it.text)
}

proof fn lemma_item_texts_push(items: Seq<DictItemV>, it: DictItemV)
    ensures
        item_texts(items.push(it)) == item_texts(items).insert(it.text),
{
    let p = items.push(it);
    assert forall|t: Seq<char>| item_texts(p).contains(t) implies item_texts(items).insert(
        it.text,
    ).contains(t) by {
        let j = choose|j: int| 0 <= j < p.len() && p[j].text == t;
        if j < items.len() {
            assert(items[j].text == t);
        }
    }
    assert forall|t: Seq<char>|
        item_texts(items).insert(it.text).contains(t) implies item_texts(p).contains(t) by {
        if t == it.text {
            assert(p[items.len() as int].text == t);
        } else {
            let j = choose|j: int| 0 <= j < items.len() && items[j].text == t;
            assert(p[j].text == t);
        }
    }
    assert(item_texts(p) =~= item_texts(items).insert(it.text));
}

proof fn lemma_item_codes_push(items: Seq<DictItemV>, it: DictItemV)
    ensures
        item_codes(items.push(it)) == item_codes(items).insert(it.code),
{
    let p = items.push(it);
    assert forall|c: Seq<char>| item_codes(p).contains(c) implies item_codes(items).insert(
        it.code,
    ).contains(c) by {
        let j = choose|j: int| 0 <= j < p.len() && p[j].code == c;
        if j < items.len() {
            assert(items[j].code == c);
        }
    }
    assert forall|c: Seq<char>|
        item_codes(items).insert(it.code).contains(c) implies item_codes(p).contains(c) by {
        if c == it.code {
            assert(p[items.len() as int].code == c);
        } else {
            let j = choose|j: int| 0 <= j < items.len() && items[j].code == c;
            assert(p[j].code == c);
        }
    }
    assert(item_codes(p) =~= item_codes(items).insert(it.code));
}

/// One group of a by-code grouping: the code and its items.
pub type CodeGroup = (String, Vec<DictItem>);

/// Groups items by code: one entry per distinct code, holding that
/// code's items in input order, duplicates kept.
pub fn group_items_by_code(items: &Vec<DictItem>) -> (r: Vec<CodeGroup>)
    ensures
        forall|a: int, b: int| 0 <= a < b < r@.len() ==> r@[a].0@ != r@[b].0@,
        forall|a: int|
            0 <= a < r@.len() ==> ({
                &&& item_codes(views(items@)).contains((#[trigger] r@[a]).0@)
                &&& views(r@[a].1@) == items_for_code(views(items@), r@[a].0@)
            }),
        forall|c: Seq<char>|
            item_codes(views(items@)).contains(c) ==> (exists|a: int|
                0 <= a < r@.len() && (#[trigger] r@[a]).0@ == c),
{
    broadcast use vstd::seq_lib::group_filter_ensures;

    let ghost iv = views(items@);
    let mut out: Vec<CodeGroup> = Vec::new();
    let mut i: usize = 0;
    proof {
        assert(iv.take(0) =~= Seq::<DictItemV>::empty());
        assert forall|c: Seq<char>| true implies items_for_code(iv.take(0), c)
            =~= Seq::<DictItemV>::empty() by {
            assert(Seq::<DictItemV>::empty().filter(|it: DictItemV| it.code == c)
                =~= Seq::<DictItemV>::empty());
        }
        assert(item_codes(iv.take(0)) =~= Set::<Seq<char>>::empty());
    }
    while i < items.len()
        invariant
            0 <= i <= items.len(),
            iv == views(items@),
            iv.len() == items.len(),
            forall|a: int, b: int| 0 <= a < b < out@.len() ==> out@[a].0@ != out@[b].0@,
            forall|a: int|
                0 <= a < out@.len() ==> ({
                    &&& item_codes(iv.take(i as int)).contains((#[trigger] out@[a]).0@)
                    &&& views(out@[a].1@) == items_for_code(iv.take(i as int), out@[a].0@)
                }),
            forall|c: Seq<char>|
                item_codes(iv.take(i as int)).contains(c) ==> (exists|a: int|
                    0 <= a < out@.len() && (#[trigger] out@[a]).0@ == c),
        decreases items.len() - i,
    {
        let ghost itv = iv[i as int];
        let item = DictItem {
            text: items[i].text.clone(),
            code: items[i].code.clone(),
            weight: items[i].weight,
            comment: match &items[i].comment {
                Some(c) => Some(c.clone()),
                None => None,
            },
        };
        proof {
            assert(item@ == itv);
        }
        let n = out.len();
        let mut a: usize = n;
        let mut scan: usize = 0;
        while scan < n
            invariant
                0 <= scan <= n == out@.len(),
                item@ == itv,
                a == n || (a < n && out@[a as int].0@ == itv.code),
                a == n ==> forall|m: int| 0 <= m < scan ==> out@[m].0@ != itv.code,
            decreases n - scan,
        {
            if a == n {
                if crate::engine::str_eq(out[scan].0.as_str(), item.code.as_str()) {
                    a = scan;
                }
            }
            scan = scan + 1;
        }
        let found = a < n;
        let ghost old_out = out@;
        if found {
            let mut pair = out.remove(a);
            pair.1.push(item);
            out.insert(a, pair);
            proof {
                assert forall|m: int| 0 <= m < out@.len() implies ((#[trigger] out@[m]).0@
                    == old_out[m].0@ && (m != a ==> out@[m] == old_out[m])) by {}
                assert(views(out@[a as int].1@) =~= views(old_out[a as int].1@).push(itv));
            }
        } else {
            let mut lone: Vec<DictItem> = Vec::new();
            lone.push(item);
            out.push((items[i].code.clone(), lone));
            proof {
                assert(views(out@[old_out.len() as int].1@) =~= seq![itv]);
            }
        }
        proof {
            assert(iv.take(i + 1).drop_last() =~= iv.take(i as int));
            assert(iv.take(i + 1) =~= iv.take(i as int).push(itv));
            lemma_item_codes_push(iv.take(i as int), itv);
            assert forall|c: Seq<char>| true implies items_for_code(iv.take(i + 1), c) == (
            if c == itv.code {
                items_for_code(iv.take(i as int), c).push(itv)
            } else {
                items_for_code(iv.take(i as int), c)
            }) by {
                iv.take(i as int).lemma_filter_push(itv, |it: DictItemV| it.code == c);
                assert(iv.take(i as int).push(itv) == iv.take(i + 1));
            }
            if found {
                assert forall|m: int|
                    0 <= m < out@.len() implies views(out@[m].1@) == items_for_code(
                    iv.take(i + 1),
                    out@[m].0@,
                ) by {
                    if m != a {
                        assert(out@[m] == old_out[m]);
                        assert(old_out[m].0@ != itv.code);
                    }
                }
            } else {
                assert forall|m: int|
                    0 <= m < out@.len() implies views(out@[m].1@) == items_for_code(
                    iv.take(i + 1),
                    out@[m].0@,
                ) by {
                    if m < old_out.len() {
                        assert(out@[m] == old_out[m]);
                        assert(old_out[m].0@ != itv.code);
                    } else {
                        assert(out@[m].0@ == itv.code);
                        assert(items_for_code(iv.take(i as int), itv.code)
                            =~= Seq::<DictItemV>::empty()) by {
                            if items_for_code(iv.take(i as int), itv.code).len() > 0 {
                                let w = items_for_code(iv.take(i as int), itv.code)[0];
                                iv.take(i as int).lemma_filter_pred(
                                    |it: DictItemV| it.code == itv.code,
                                    0,
                                );
                                iv.take(i as int).lemma_filter_contains_rev(
                                    |it: DictItemV| it.code == itv.code,
                                    w,
                                );
                                let y = choose|y: int|
                                    0 <= y < i && iv.take(i as int)[y] == w;
                                assert(item_codes(iv.take(i as int)).contains(itv.code));
                                let z = choose|z: int|
                                    0 <= z < out@.len() - 1 && old_out[z].0@ == itv.code;
                                assert(false);
                            }
                        }
                        assert(items_for_code(iv.take(i + 1), itv.code)
                            =~= Seq::<DictItemV>::empty().push(itv));
                        assert(views(out@[m].1@) =~= seq![itv]);
                        assert(seq![itv] =~= Seq::<DictItemV>::empty().push(itv));
                    }
                }
            }
            assert forall|c: Seq<char>| #[trigger] item_codes(iv.take(i + 1)).contains(c) implies (
            exists|y: int| 0 <= y < out@.len() && (#[trigger] out@[y]).0@ == c) by {
                if c == itv.code {
                    if found {
                        assert(out@[a as int].0@ == c);
                    } else {
                        assert(out@[old_out.len() as int].0@ == c);
                    }
                } else {
                    assert(item_codes(iv.take(i as int)).contains(c));
                    let w = choose|w: int| 0 <= w < old_out.len() && (#[trigger] old_out[w]).0@ == c;
                    if found {
                        assert(out@[w].0@ == old_out[w].0@);
                    } else {
                        assert(out@[w] == old_out[w]);
                    }
                    assert(out@[w].0@ == c);
                }
            }
        }
        i = i + 1;
    }
    proof {
        assert(iv.take(iv.len() as int) =~= iv);
    }
    out
}

/// One definitions-table entry: a text with its weight and comment.
pub type DefEntry = (String, (u64, Option<String>));

/// The model of a definition value.
pub open spec fn def_value_view(d: (u64, Option<String>)) -> (u64, Option<Seq<char>>) {
    (
        d.0,
        match d.1 {
            Some(c) => Some(c@),
            None => None,
        },
    )
}

/// The weight and comment of the last row carrying `text`, if any: the
/// key-value definition table is an upsert, so the last write wins.
pub open spec fn last_def_for(items: Seq<DictItemV>, text: Seq<char>) -> Option<
    (u64, Option<Seq<char>>),
>
    decreases items.len(),
{
    if items.len() == 0 {
        None
    } else if items.last().text == text {
        Some((items.last().weight as u64, items.last().comment))
    } else {
        last_def_for(items.drop_last(), text)
    }
}

/// The definitions drawn from `items` with the key-value store's
/// last-write-wins rule: one entry per distinct text, holding the
/// weight and comment of that text's last row.
pub fn last_wins_defs(items: &Vec<DictItem>) -> (r: Vec<DefEntry>)
    ensures
        forall|a: int, b: int| 0 <= a < b < r@.len() ==> r@[a].0@ != r@[b].0@,
        forall|a: int|
            0 <= a < r@.len() ==> last_def_for(views(items@), (#[trigger] r@[a]).0@) == Some(
                def_value_view(r@[a].1),
            ),
        forall|t: Seq<char>|
            item_texts(views(items@)).contains(t) ==> (exists|a: int|
                0 <= a < r@.len() && (#[trigger] r@[a]).0@ == t),
{
    let ghost iv = views(items@);
    let mut out: Vec<DefEntry> = Vec::new();
    let mut i: usize = 0;
    proof {
        assert(iv.take(0) =~= Seq::<DictItemV>::empty());
        assert(item_texts(iv.take(0)) =~= Set::<Seq<char>>::empty());
    }
    while i < items.len()
        invariant
            0 <= i <= items.len(),
            iv == views(items@),
            iv.len() == items.len(),
            forall|a: int, b: int| 0 <= a < b < out@.len() ==> out@[a].0@ != out@[b].0@,
            forall|a: int|
                0 <= a < out@.len() ==> last_def_for(iv.take(i as int), (#[trigger] out@[a]).0@)
                    == Some(def_value_view(out@[a].1)),
            forall|t: Seq<char>|
                item_texts(iv.take(i as int)).contains(t) ==> (exists|a: int|
                    0 <= a < out@.len() && (#[trigger] out@[a]).0@ == t),
        decreases items.len() - i,
    {
        let ghost itv = iv[i as int];
        let def: (u64, Option<String>) = (
            items[i].weight as u64,
            match &items[i].comment {
                Some(c) => Some(c.clone()),
                None => None,
            },
        );
        proof {
            assert(def_value_view(def) == (itv.weight as u64, itv.comment));
        }
        let n = out.len();
        let mut a: usize = n;
        let mut scan: usize = 0;
        while scan < n
            invariant
                0 <= scan <= n == out@.len(),
                itv == iv[i as int],
                0 <= i < iv.len(),
                iv == views(items@),
                iv.len() == items@.len(),
                a == n || (a < n && out@[a as int].0@ == itv.text),
                a == n ==> forall|m: int| 0 <= m < scan ==> out@[m].0@ != itv.text,
            decreases n - scan,
        {
            if a == n {
                if crate::engine::str_eq(out[scan].0.as_str(), items[i].text.as_str()) {
                    a = scan;
                }
            }
            scan = scan + 1;
        }
        let found = a < n;
        let ghost old_out = out@;
        if found {
            let pair = out.remove(a);
            out.insert(a, (pair.0, def));
            proof {
                assert forall|m: int| 0 <= m < out@.len() implies ((#[trigger] out@[m]).0@
                    == old_out[m].0@ && (m != a ==> out@[m] == old_out[m])) by {}
            }
        } else {
            out.push((items[i].text.clone(), def));
        }
        proof {
            assert(iv.take(i + 1).drop_last() =~= iv.take(i as int));
            assert(iv.take(i + 1).last() == itv);
            lemma_item_texts_push(iv.take(i as int), itv);
            assert(iv.take(i + 1) =~= iv.take(i as int).push(itv));
            assert forall|m: int| 0 <= m < out@.len() implies last_def_for(
                iv.take(i + 1),
                (#[trigger] out@[m]).0@,
            ) == Some(def_value_view(out@[m].1)) by {
                if out@[m].0@ == itv.text {
                    assert(out@[m].1 == def);
                } else {
                    assert(last_def_for(iv.take(i + 1), out@[m].0@) == last_def_for(
                        iv.take(i as int),
                        out@[m].0@,
                    ));
                    assert(out@[m] == old_out[m]);
                }
            }
            assert forall|t: Seq<char>| #[trigger] item_texts(iv.take(i + 1)).contains(
                t,
            ) implies (exists|y: int| 0 <= y < out@.len() && (#[trigger] out@[y]).0@ == t) by {
                if t == itv.text {
                    if found {
                        assert(out@[a as int].0@ == t);
                    } else {
                        assert(out@[old_out.len() as int].0@ == t);
                    }
                } else {
                    assert(item_texts(iv.take(i as int)).contains(t));
                    let w = choose|w: int|
                        0 <= w < old_out.len() && (#[trigger] old_out[w]).0@ == t;
                    assert(out@[w].0@ == old_out[w].0@);
                }
            }
        }
        i = i + 1;
    }
    proof {
        assert(iv.take(iv.len() as int) =~= iv);
    }
    out
}

/// The texts of `list`, in order.
pub fn texts_of_items(list: &Vec<DictItem>) -> (r: Vec<String>)
    ensures
        crate::trie::text_views(r@) == views(list@).map_values(|it: DictItemV| it.text),
{
    let mut out: Vec<String> = Vec::new();
    let mut i: usize = 0;
    while i < list.len()
        invariant
            0 <= i <= list@.len(),
            out@.len() == i,
            forall|m: int| 0 <= m < i ==> out@[m]@ == views(list@)[m].text,
        decreases list@.len() - i,
    {
        out.push(list[i].text.clone());
        i = i + 1;
    }
    proof {
        assert(crate::trie::text_views(out@) =~= views(list@).map_values(
            |it: DictItemV| it.text,
        ));
    }
    out
}

/// The view of an optional string.
pub open spec fn opt_str_view(o: Option<String>) -> Option<Seq<char>> {
    match o {
        Some(c) => Some(c@),
        None => None,
    }
}

/// The raw row tuples of `list`, in order.
pub fn rows_of_items(list: &Vec<DictItem>) -> (r: Vec<crate::trie::Row>)
    ensures
        crate::trie::row_views(r@) == views(list@).map_values(
            |it: DictItemV| (it.text, it.code, it.weight, it.comment),
        ),
{
    let mut out: Vec<crate::trie::Row> = Vec::new();
    let mut i: usize = 0;
    while i < list.len()
        invariant
            0 <= i <= list@.len(),
            out@.len() == i,
            forall|m: int|
                0 <= m < i ==> ({
                    &&& (#[trigger] out@[m]).0@ == views(list@)[m].text
                    &&& out@[m].1@ == views(list@)[m].code
                    &&& out@[m].2 == views(list@)[m].weight
                    &&& opt_str_view(out@[m].3) == views(list@)[m].comment
                }),
        decreases list@.len() - i,
    {
        let it = &list[i];
        out.push(
            (
                it.text.clone(),
                it.code.clone(),
                it.weight,
                match &it.comment {
                    Some(c) => Some(c.clone()),
                    None => None,
                },
            ),
        );
        i = i + 1;
    }
    proof {
        assert(crate::trie::row_views(out@) =~= views(list@).map_values(
            |it: DictItemV| (it.text, it.code, it.weight, it.comment),
        ));
    }
    out
}

/// What the whole-row trie artifact holds: one key per distinct code,
/// bound to that code's raw rows in input order, duplicates kept.
pub open spec fn rows_trie_of(items: Seq<DictItemV>) -> Map<Seq<char>, Seq<crate::trie::RowV>> {
    Map::new(
        |c: Seq<char>| item_codes(items).contains(c),
        |c: Seq<char>|
            items_for_code(items, c).map_values(
                |it: DictItemV| (it.text, it.code, it.weight, it.comment),
            ),
    )
}

/// Builds the whole-row trie artifact: parses every source, groups the
/// rows by code, and serializes a trie binding each code to its rows in
/// input order, duplicates kept.
pub fn build(sources: &Vec<String>) -> (r: Result<Vec<u8>, LiushuError>)
    ensures
        (r matches Ok(bytes) ==> ({
            &&& parse_sources_spec(sources@.map_values(|p: String| p@)) is Some
            &&& (exists|t: patricia_tree::StringPatriciaMap<Vec<crate::trie::Row>>|
                bytes@ == #[trigger] crate::trie::rows_trie_enc(t) && crate::trie::rows_trie_model(
                    t,
                ) == rows_trie_of(
                    parse_sources_spec(sources@.map_values(|p: String| p@))->Some_0,
                ))
        })),
        parse_sources_spec(sources@.map_values(|p: String| p@)) is None ==> (r matches Err(e)
            && e is Parse),
        (r matches Err(e) ==> (e is Parse || e is Storage)),
        (r matches Err(e) && e is Parse ==> parse_sources_spec(
            sources@.map_values(|p: String| p@),
        ) is None),
{
    let items = match parse_sources(sources) {
        Err(e) => {
            return Err(e);
        },
        Ok(items) => items,
    };
    let ghost iv = views(items@);
    let groups = group_items_by_code(&items);
    let mut trie = crate::trie::rows_trie_new();
    let mut g: usize = 0;
    while g < groups.len()
        invariant
            iv == views(items@),
            parse_sources_spec(sources@.map_values(|p: String| p@)) == Some(iv),
            forall|a: int, b: int| 0 <= a < b < groups@.len() ==> groups@[a].0@ != groups@[b].0@,
            forall|a: int|
                0 <= a < groups@.len() ==> ({
                    &&& item_codes(iv).contains((#[trigger] groups@[a]).0@)
                    &&& views(groups@[a].1@) == items_for_code(iv, groups@[a].0@)
                }),
            forall|c: Seq<char>|
                item_codes(iv).contains(c) ==> (exists|a: int|
                    0 <= a < groups@.len() && (#[trigger] groups@[a]).0@ == c),
            0 <= g <= groups@.len(),
            forall|k: Seq<char>|
                crate::trie::rows_trie_model(trie).contains_key(k) ==> (exists|a: int|
                    0 <= a < g && k == (#[trigger] groups@[a]).0@),
            forall|a: int|
                0 <= a < g ==> ({
                    &&& crate::trie::rows_trie_model(trie).contains_key(
                        (#[trigger] groups@[a]).0@,
                    )
                    &&& crate::trie::rows_trie_model(trie)[groups@[a].0@] == rows_trie_of(
                        iv,
                    )[groups@[a].0@]
                }),
        decreases groups.len() - g,
    {
        let rows = rows_of_items(&groups[g].1);
        proof {
            assert(crate::trie::row_views(rows@) =~= rows_trie_of(iv)[groups@[g as int].0@]);
        }
        crate::trie::rows_trie_insert(&mut trie, groups[g].0.as_str(), rows);
        g = g + 1;
    }
    proof {
        assert(crate::trie::rows_trie_model(trie) =~= rows_trie_of(iv)) by {
            assert forall|k: Seq<char>| #[trigger] crate::trie::rows_trie_model(trie).contains_key(
                k,
            ) implies rows_trie_of(iv).contains_key(k) && crate::trie::rows_trie_model(trie)[k]
                == rows_trie_of(iv)[k] by {
                let a = choose|a: int|
                    0 <= a < groups@.len() && k == (#[trigger] groups@[a]).0@;
            }
            assert forall|k: Seq<char>| #[trigger] rows_trie_of(iv).contains_key(
                k,
            ) implies crate::trie::rows_trie_model(trie).contains_key(k) by {
                let a = choose|a: int| 0 <= a < groups@.len() && (#[trigger] groups@[a]).0@ == k;
            }
        }
    }
    match crate::trie::rows_trie_to_bytes(&trie) {
        Err(e) => Err(LiushuError::Storage(crate::trie::bincode_error_message(&e))),
        Ok(bytes) => {
            proof {
                assert(bytes@ == crate::trie::rows_trie_enc(trie)
                    && crate::trie::rows_trie_model(trie) == rows_trie_of(iv));
            }
            Ok(bytes)
        },
    }
}

/// What the flat-build trie artifact holds: one key per distinct code,
/// bound to the set of that code's distinct texts.
pub open spec fn set_trie_of(items: Seq<DictItemV>) -> Map<Seq<char>, Set<Seq<char>>> {
    Map::new(
        |c: Seq<char>| item_codes(items).contains(c),
        |c: Seq<char>| texts_for_code(items, c).to_set(),
    )
}

/// The distinct texts of `items`: each text once, each occurring in the
/// input, every input text covered.
pub fn distinct_texts(items: &Vec<DictItem>) -> (r: Vec<String>)
    ensures
        forall|a: int, b: int| 0 <= a < b < r@.len() ==> r@[a]@ != r@[b]@,
        forall|a: int| 0 <= a < r@.len() ==> item_texts(views(items@)).contains((#[trigger] r@[a])@),
        forall|t: Seq<char>|
            item_texts(views(items@)).contains(t) ==> (exists|a: int|
                0 <= a < r@.len() && (#[trigger] r@[a])@ == t),
{
    let ghost iv = views(items@);
    let mut out: Vec<String> = Vec::new();
    let mut i: usize = 0;
    proof {
        assert(item_texts(iv.take(0)) =~= Set::<Seq<char>>::empty());
    }
    while i < items.len()
        invariant
            0 <= i <= items.len(),
            iv == views(items@),
            iv.len() == items.len(),
            forall|a: int, b: int| 0 <= a < b < out@.len() ==> out@[a]@ != out@[b]@,
            forall|a: int|
                0 <= a < out@.len() ==> item_texts(iv.take(i as int)).contains(
                    (#[trigger] out@[a])@,
                ),
            forall|t: Seq<char>|
                item_texts(iv.take(i as int)).contains(t) ==> (exists|a: int|
                    0 <= a < out@.len() && (#[trigger] out@[a])@ == t),
        decreases items.len() - i,
    {
        let ghost itv = iv[i as int];
        let n = out.len();
        let mut a: usize = n;
        let mut scan: usize = 0;
        while scan < n
            invariant
                0 <= scan <= n == out@.len(),
                itv == iv[i as int],
                0 <= i < iv.len(),
                iv == views(items@),
                iv.len() == items@.len(),
                a == n || (a < n && out@[a as int]@ == itv.text),
                a == n ==> forall|m: int| 0 <= m < scan ==> out@[m]@ != itv.text,
            decreases n - scan,
        {
            if a == n {
                if crate::engine::str_eq(out[scan].as_str(), items[i].text.as_str()) {
                    a = scan;
                }
            }
            scan = scan + 1;
        }
        let ghost old_out = out@;
        if a == n {
            out.push(items[i].text.clone());
        }
        proof {
            assert(iv.take(i + 1).drop_last() =~= iv.take(i as int));
            assert(iv.take(i + 1) =~= iv.take(i as int).push(itv));
            lemma_item_texts_push(iv.take(i as int), itv);
            assert forall|t: Seq<char>| #[trigger] item_texts(iv.take(i + 1)).contains(
                t,
            ) implies (exists|y: int| 0 <= y < out@.len() && (#[trigger] out@[y])@ == t) by {
                if t == itv.text {
                    if a < n {
                        assert(out@[a as int]@ == t);
                    } else {
                        assert(out@[old_out.len() as int]@ == t);
                    }
                } else {
                    assert(item_texts(iv.take(i as int)).contains(t));
                    let w = choose|w: int| 0 <= w < old_out.len() && (#[trigger] old_out[w])@ == t;
                    assert(out@[w]@ == t);
                }
            }
        }
        i = i + 1;
    }
    proof {
        assert(iv.take(iv.len() as int) =~= iv);
    }
    out
}

/// The model of a flat definition value.
pub open spec fn def32_view(d: (u32, Option<String>)) -> (u32, Option<Seq<char>>) {
    (
        d.0,
        match d.1 {
            Some(c) => Some(c@),
            None => None,
        },
    )
}

/// The weight and comment of the first row carrying `text`, if any: the
/// flat definition table keeps the first occurrence, later duplicates
/// do not overwrite it.
pub open spec fn first_def_for(items: Seq<DictItemV>, text: Seq<char>) -> Option<
    (u32, Option<Seq<char>>),
>
    decreases items.len(),
{
    if items.len() == 0 {
        None
    } else if items[0].text == text {
        Some((items[0].weight, items[0].comment))
    } else {
        first_def_for(items.drop_first(), text)
    }
}

proof fn lemma_first_def_at(items: Seq<DictItemV>, text: Seq<char>, j: int)
    requires
        0 <= j < items.len(),
        items[j].text == text,
        forall|m: int| 0 <= m < j ==> items[m].text != text,
    ensures
        first_def_for(items, text) == Some((items[j].weight, items[j].comment)),
    decreases items.len(),
{
    if j > 0 {
        let t = items.drop_first();
        assert forall|m: int| 0 <= m < j - 1 implies t[m].text != text by {
            assert(t[m] == items[m + 1]);
        }
        assert(t[j - 1] == items[j]);
        lemma_first_def_at(t, text, j - 1);
    }
}

proof fn lemma_first_def_none(items: Seq<DictItemV>, text: Seq<char>)
    requires
        forall|m: int| 0 <= m < items.len() ==> items[m].text != text,
    ensures
        first_def_for(items, text) is None,
    decreases items.len(),
{
    if items.len() > 0 {
        let t = items.drop_first();
        assert forall|m: int| 0 <= m < t.len() implies t[m].text != text by {
            assert(t[m] == items[m + 1]);
        }
        lemma_first_def_none(t, text);
    }
}

/// A well-formed slot assignment: one slot per text, each in range,
/// pairwise distinct, and every text occurring among the rows.
pub open spec fn assignment_ok(
    items: Seq<DictItemV>,
    texts: Seq<Seq<char>>,
    slots: Seq<u64>,
) -> bool {
    &&& slots.len() == texts.len()
    &&& forall|a: int| 0 <= a < slots.len() ==> (#[trigger] slots[a]) < texts.len()
    &&& forall|a: int, b: int| 0 <= a < b < slots.len() ==> slots[a] != slots[b]
    &&& forall|a: int| 0 <= a < texts.len() ==> first_def_for(items, #[trigger] texts[a]) is Some
}

/// How a flat definition table relates to its inputs: one slot per
/// text, slots pairwise distinct and in range — distinct texts never
/// collide — and each text's slot holds the weight and comment of its
/// first occurrence.
pub open spec fn defs_assigned(
    items: Seq<DictItemV>,
    texts: Seq<Seq<char>>,
    slots: Seq<u64>,
    defs: Seq<(u32, Option<Seq<char>>)>,
) -> bool {
    &&& slots.len() == texts.len()
    &&& defs.len() == texts.len()
    &&& forall|a: int, b: int| 0 <= a < b < slots.len() ==> slots[a] != slots[b]
    &&& forall|a: int| 0 <= a < slots.len() ==> (#[trigger] slots[a]) < texts.len()
    &&& forall|a: int|
        0 <= a < texts.len() ==> first_def_for(items, #[trigger] texts[a]) == Some(
            defs[slots[a] as int],
        )
}

/// Fills the flat definition table from an assignment of slots to the
/// distinct texts (the caller computes it with a minimal perfect hash).
/// The assignment is validated here: a slot out of range, a collision,
/// or a text that no row carries is an error, so a success never holds
/// a collision, and each slot keeps its text's first occurrence.
pub fn build_defs(items: &Vec<DictItem>, texts: &Vec<String>, slots: &Vec<u64>) -> (r: Result<
    Vec<(u32, Option<String>)>,
    LiushuError,
>)
    ensures
        (r matches Ok(defs) ==> defs_assigned(
            views(items@),
            crate::trie::text_views(texts@),
            slots@,
            defs@.map_values(|d: (u32, Option<String>)| def32_view(d)),
        )),
        assignment_ok(views(items@), crate::trie::text_views(texts@), slots@) ==> r is Ok,
        (r matches Err(e) ==> (e is Other && !assignment_ok(
            views(items@),
            crate::trie::text_views(texts@),
            slots@,
        ))),
{
    let n = texts.len();
    if slots.len() != n {
        return Err(LiushuError::Other(String::from_str("slot assignment size mismatch")));
    }
    let mut seen: Vec<bool> = Vec::new();
    let mut k: usize = 0;
    while k < n
        invariant
            seen@.len() == k <= n,
            forall|m: int| 0 <= m < k ==> !seen@[m],
        decreases n - k,
    {
        seen.push(false);
        k = k + 1;
    }
    let mut a: usize = 0;
    while a < n
        invariant
            0 <= a <= n == texts@.len() == slots@.len(),
            seen@.len() == n,
            forall|m: int| 0 <= m < a ==> (#[trigger] slots@[m]) < n,
            forall|p: int, q: int| 0 <= p < q < a ==> slots@[p] != slots@[q],
            forall|x: int|
                0 <= x < n ==> (seen@[x] <==> (exists|m: int|
                    0 <= m < a && (#[trigger] slots@[m]) == x)),
        decreases n - a,
    {
        let s = slots[a];
        if s >= n as u64 {
            proof {
                assert(slots@[a as int] >= crate::trie::text_views(texts@).len());
            }
            return Err(LiushuError::Other(String::from_str("slot out of range")));
        }
        let si = s as usize;
        if seen[si] {
            proof {
                let m = choose|m: int| 0 <= m < a && (#[trigger] slots@[m]) == si;
                assert(slots@[m] == slots@[a as int]);
            }
            return Err(LiushuError::Other(String::from_str("slot collision")));
        }
        let ghost old_seen = seen@;
        let _ = seen.remove(si);
        seen.insert(si, true);
        proof {
            assert forall|x: int|
                0 <= x < n implies (seen@[x] <==> (exists|m: int|
                0 <= m < a + 1 && (#[trigger] slots@[m]) == x)) by {
                if x == si {
                    assert(slots@[a as int] == x);
                } else {
                    assert(seen@[x] == old_seen[x]);
                }
            }
        }
        a = a + 1;
    }
    let mut defs: Vec<(u32, Option<String>)> = Vec::new();
    let mut k2: usize = 0;
    while k2 < n
        invariant
            defs@.len() == k2 <= n,
        decreases n - k2,
    {
        defs.push((0, None));
        k2 = k2 + 1;
    }
    let ghost iv = views(items@);
    let mut a2: usize = 0;
    while a2 < n
        invariant
            0 <= a2 <= n == texts@.len() == slots@.len(),
            iv == views(items@),
            iv.len() == items@.len(),
            defs@.len() == n,
            forall|m: int| 0 <= m < n ==> (#[trigger] slots@[m]) < n,
            forall|p: int, q: int| 0 <= p < q < n ==> slots@[p] != slots@[q],
            forall|m: int|
                0 <= m < a2 ==> first_def_for(iv, (#[trigger] texts@[m])@) == Some(
                    def32_view(defs@[slots@[m] as int]),
                ),
        decreases n - a2,
    {
        let nn = items.len();
        let mut jj: usize = 0;
        let mut def: (u32, Option<String>) = (0, None);
        let mut have = false;
        while jj < nn
            invariant
                0 <= jj <= nn == items@.len(),
                iv == views(items@),
                iv.len() == items@.len(),
                0 <= a2 < texts@.len(),
                have ==> jj == nn,
                !have ==> forall|m: int| 0 <= m < jj ==> iv[m].text != texts@[a2 as int]@,
                have ==> first_def_for(iv, texts@[a2 as int]@) == Some(def32_view(def)),
            decreases nn - jj,
        {
            if crate::engine::str_eq(items[jj].text.as_str(), texts[a2].as_str()) {
                def = (
                    items[jj].weight,
                    match &items[jj].comment {
                        Some(c) => Some(c.clone()),
                        None => None,
                    },
                );
                proof {
                    assert(iv[jj as int].text == texts@[a2 as int]@);
                    assert forall|m: int| 0 <= m < jj implies iv[m].text != texts@[a2 as int]@ by {
                        assert(iv[m].text == views(items@)[m].text);
                    }
                    lemma_first_def_at(iv, texts@[a2 as int]@, jj as int);
                    assert(def32_view(def) == (iv[jj as int].weight, iv[jj as int].comment));
                }
                have = true;
                jj = nn;
            } else {
                jj = jj + 1;
            }
        }
        if !have {
            proof {
                lemma_first_def_none(iv, texts@[a2 as int]@);
                assert(first_def_for(iv, crate::trie::text_views(texts@)[a2 as int]) is None);
            }
            return Err(LiushuError::Other(String::from_str("text missing from rows")));
        }
        let si = slots[a2] as usize;
        let ghost old_defs = defs@;
        let _ = defs.remove(si);
        defs.insert(si, def);
        proof {
            assert forall|m: int|
                0 <= m < a2 + 1 implies first_def_for(iv, (#[trigger] texts@[m])@) == Some(
                def32_view(defs@[slots@[m] as int]),
            ) by {
                if m < a2 {
                    assert(slots@[m] != slots@[a2 as int]);
                    assert(defs@[slots@[m] as int] == old_defs[slots@[m] as int]);
                } else {
                    assert(defs@[slots@[m] as int] == def);
                }
            }
        }
        a2 = a2 + 1;
    }
    Ok(defs)
}

/// The two flat-build artifacts: the serialized code trie and the
/// serialized definition table.
pub type FlatArtifacts = (Vec<u8>, Vec<u8>);

/// Builds the flat perfect-hash dictionary artifacts from parsed rows,
/// their distinct texts and the slot each text was assigned by the
/// caller's minimal perfect hash: a trie binding each code to its set
/// of distinct texts, and the definition table holding, at each text's
/// slot, its first occurrence's weight and comment.
pub fn build2(items: &Vec<DictItem>, texts: &Vec<String>, slots: &Vec<u64>) -> (r: Result<
    FlatArtifacts,
    LiushuError,
>)
    ensures
        (r matches Ok(arts) ==> ({
            &&& (exists|t: patricia_tree::StringPatriciaMap<patricia_tree::StringPatriciaSet>|
                arts.0@ == #[trigger] crate::trie::set_trie_enc(t) && crate::trie::set_trie_model(
                    t,
                ) == set_trie_of(views(items@)))
            &&& (exists|defs: Seq<(u32, Option<Seq<char>>)>|
                arts.1@ == crate::trie::defs_enc(defs) && defs_assigned(
                    views(items@),
                    crate::trie::text_views(texts@),
                    slots@,
                    defs,
                ))
        })),
        assignment_ok(views(items@), crate::trie::text_views(texts@), slots@) ==> !(r matches
        Err(e) && e is Other),
        (r matches Err(e) ==> (e is Other || e is Storage)),
{
    let ghost iv = views(items@);
    let defs = match build_defs(items, texts, slots) {
        Err(e) => {
            return Err(e);
        },
        Ok(defs) => defs,
    };
    let groups = group_items_by_code(items);
    let mut trie = crate::trie::set_trie_new();
    let mut g: usize = 0;
    while g < groups.len()
        invariant
            iv == views(items@),
            forall|a: int, b: int| 0 <= a < b < groups@.len() ==> groups@[a].0@ != groups@[b].0@,
            forall|a: int|
                0 <= a < groups@.len() ==> ({
                    &&& item_codes(iv).contains((#[trigger] groups@[a]).0@)
                    &&& views(groups@[a].1@) == items_for_code(iv, groups@[a].0@)
                }),
            forall|c: Seq<char>|
                item_codes(iv).contains(c) ==> (exists|a: int|
                    0 <= a < groups@.len() && (#[trigger] groups@[a]).0@ == c),
            0 <= g <= groups@.len(),
            forall|k: Seq<char>|
                crate::trie::set_trie_model(trie).contains_key(k) ==> (exists|a: int|
                    0 <= a < g && k == (#[trigger] groups@[a]).0@),
            forall|a: int|
                0 <= a < g ==> ({
                    &&& crate::trie::set_trie_model(trie).contains_key((#[trigger] groups@[a]).0@)
                    &&& crate::trie::set_trie_model(trie)[groups@[a].0@] == set_trie_of(
                        iv,
                    )[groups@[a].0@]
                }),
        decreases groups.len() - g,
    {
        let texts_g = texts_of_items(&groups[g].1);
        proof {
            assert(crate::trie::text_views(texts_g@) =~= texts_for_code(iv, groups@[g as int].0@));
        }
        crate::trie::set_trie_insert(&mut trie, groups[g].0.as_str(), &texts_g);
        g = g + 1;
    }
    proof {
        assert(crate::trie::set_trie_model(trie) =~= set_trie_of(iv)) by {
            assert forall|k: Seq<char>| #[trigger] crate::trie::set_trie_model(trie).contains_key(
                k,
            ) implies set_trie_of(iv).contains_key(k) && crate::trie::set_trie_model(trie)[k]
                == set_trie_of(iv)[k] by {
                let a = choose|a: int| 0 <= a < groups@.len() && k == (#[trigger] groups@[a]).0@;
            }
            assert forall|k: Seq<char>| #[trigger] set_trie_of(iv).contains_key(
                k,
            ) implies crate::trie::set_trie_model(trie).contains_key(k) by {
                let a = choose|a: int| 0 <= a < groups@.len() && (#[trigger] groups@[a]).0@ == k;
            }
        }
    }
    let index_bytes = match crate::trie::set_trie_to_bytes(&trie) {
        Err(e) => {
            return Err(LiushuError::Storage(crate::trie::bincode_error_message(&e)));
        },
        Ok(bytes) => {
            proof {
                assert(bytes@ == crate::trie::set_trie_enc(trie) && crate::trie::set_trie_model(
                    trie,
                ) == set_trie_of(iv));
            }
            bytes
        },
    };
    let def_bytes = match crate::trie::defs_to_bytes(&defs) {
        Err(e) => {
            return Err(LiushuError::Storage(crate::trie::bincode_error_message(&e)));
        },
        Ok(bytes) => bytes,
    };
    proof {
        assert(crate::trie::def_views(defs@) =~= defs@.map_values(
            |d: (u32, Option<String>)| def32_view(d),
        ));
    }
    Ok((index_bytes, def_bytes))
}

} // verus!
