//! The language-model artifacts: tab-separated text files, `#` comments.
//!
//! - dict.tsv `key<TAB>text<TAB>weight`, key = space-separated syllables;
//! - ngram.tsv `order<TAB>token1[ token2[ token3]]<TAB>count`, with header
//!   comments `# total_tokens=<N>` and `# backoff=stupid:<alpha>`;
//! - english.tsv `word<TAB>rank`.
//!
//! This module reads their structure: rows and their columns, the header
//! values, the dictionary tables (syllables, readings per hanzi, the top
//! words per pinyin key) and the English word list. Numbers are parsed by
//! the caller.

use vstd::prelude::*;

use vstd::utf8::encode_utf8;

use crate::interner::{distinct, id_of, intern_spec, Interner};
use crate::lattice::{add_spec, is_ascii_seq, EntryView, Entry, Matcher};
use crate::tables::TokenSet;
use crate::personal::{without_spaces, without_spaces_exec};
use crate::readings::{bytes_lt, readings_sorted, strings_view, CharReadings};
use crate::lattice::{LatticeBuilder, SyllableSet};
use crate::text::{
    ascii_lowercase, is_data_line, is_data_line_spec, lines_of, lines_spec, lower_seq, split_char,
    split_spec,
};

verus! {

broadcast use vstd::string::group_string_axioms;

/// Counts of what was loaded.
pub struct LoadStats {
    pub elapsed_ms: u128,
    pub est_bytes: usize,
    pub dict_entries: usize,
    pub ngrams: (usize, usize, usize),
    pub english_words: usize,
    pub syllables: usize,
}

/// A data row of a three-column file: its 1-based line number and its
/// first three columns.
pub struct TsvRow {
    pub line: usize,
    pub a: String,
    pub b: String,
    pub c: String,
}

pub struct TsvRowView {
    pub line: int,
    pub a: Seq<char>,
    pub b: Seq<char>,
    pub c: Seq<char>,
}

/// The data rows of a file, up to the first data line with fewer than
/// three columns (whose 1-based number is `bad_line`).
pub struct TsvRows {
    pub rows: Vec<TsvRow>,
    pub bad_line: Option<usize>,
}

pub open spec fn rows_view(v: Seq<TsvRow>) -> Seq<TsvRowView> {
    v.map_values(|r: TsvRow| TsvRowView { line: r.line as int, a: r.a@, b: r.b@, c: r.c@ })
}

/// Rows of `lines` from line index `i`: comments and empty lines are
/// skipped, and reading stops at a data line with fewer than three
/// columns.
pub open spec fn rows_from(lines: Seq<Seq<char>>, i: int) -> (Seq<TsvRowView>, Option<int>)
    decreases lines.len() - i,
{
    if i < 0 || i >= lines.len() {
        (seq![], None)
    } else if !is_data_line_spec(lines[i]) {
        rows_from(lines, i + 1)
    } else {
        let cols = split_spec(lines[i], '\t');
        if cols.len() < 3 {
            (seq![], Some(i + 1))
        } else {
            let rest = rows_from(lines, i + 1);
            (seq![TsvRowView { line: i + 1, a: cols[0], b: cols[1], c: cols[2] }] + rest.0, rest.1)
        }
    }
}

pub open spec fn opt_usize_view(o: Option<usize>) -> Option<int> {
    match o {
        Some(n) => Some(n as int),
        None => None,
    }
}

/// Split a three-column file into its data rows.
pub fn tsv_rows(text: &str) -> (r: TsvRows)
    requires
        lines_spec(text@).len() < usize::MAX,
    ensures
        (rows_view(r.rows@), opt_usize_view(r.bad_line)) == rows_from(lines_spec(text@), 0),
{
    let lines = lines_of(text);
    let ghost ls = lines_spec(text@);
    let mut rows: Vec<TsvRow> = Vec::new();
    let mut i: usize = 0;
    assert(rows_view(rows@) + rows_from(ls, 0).0 =~= rows_from(ls, 0).0);
    while i < lines.len()
        invariant
            ls == lines_spec(text@),
            lines@.len() == ls.len() < usize::MAX,
            forall|k: int| 0 <= k < lines@.len() ==> #[trigger] lines@[k]@ == ls[k],
            i <= lines@.len(),
            rows_from(ls, 0) == (rows_view(rows@) + rows_from(ls, i as int).0, rows_from(ls, i as int).1),
        decreases lines@.len() - i,
    {
        let line = &lines[i];
        if is_data_line(line) {
            let cols = split_char(line.as_str(), '\t');
            if cols.len() < 3 {
                assert(is_data_line_spec(ls[i as int]));
                assert(split_spec(ls[i as int], '\t').len() < 3);
                assert(rows_from(ls, i as int) == (Seq::<TsvRowView>::empty(), Some(i + 1)));
                assert(rows_view(rows@) + Seq::<TsvRowView>::empty() =~= rows_view(rows@));
                return TsvRows { rows: rows, bad_line: Some(i + 1) };
            }
            let ghost before = rows_view(rows@);
            let row = TsvRow { line: i + 1, a: cols[0].clone(), b: cols[1].clone(), c: cols[2].clone() };
            rows.push(row);
            proof {
                let cs = split_spec(ls[i as int], '\t');
                assert(cols@[0]@ == cs[0] && cols@[1]@ == cs[1] && cols@[2]@ == cs[2]);
                let rest = rows_from(ls, i + 1);
                assert(rows_view(rows@) =~= before.push(TsvRowView { line: i + 1, a: cs[0], b: cs[1], c: cs[2] }));
                assert(before + (seq![TsvRowView { line: i + 1, a: cs[0], b: cs[1], c: cs[2] }] + rest.0)
                    =~= rows_view(rows@) + rest.0);
            }
        }
        i += 1;
    }
    assert(rows_view(rows@) + Seq::<TsvRowView>::empty() =~= rows_view(rows@));
    TsvRows { rows: rows, bad_line: None }
}

/// An English match key: lowercase ASCII letters only, at least two.
pub open spec fn en_key_ok(lower: Seq<char>) -> bool {
    lower.len() >= 2 && forall|i: int| 0 <= i < lower.len() ==> 'a' <= #[trigger] lower[i] <= 'z'
}

fn en_key_ok_exec(lower: &String) -> (r: bool)
    ensures
        r == en_key_ok(lower@),
{
    let chars = crate::text::to_chars(lower.as_str());
    if chars.len() < 2 {
        return false;
    }
    let mut i: usize = 0;
    while i < chars.len()
        invariant
            chars@ == lower@,
            i <= chars@.len(),
            forall|k: int| 0 <= k < i ==> 'a' <= #[trigger] chars@[k] <= 'z',
        decreases chars@.len() - i,
    {
        if !('a' <= chars[i] && chars[i] <= 'z') {
            return false;
        }
        i += 1;
    }
    true
}

/// The English list from line `i`: each kept word is interned by its
/// lowercase form and added under it, its surface keeping the file's
/// casing. Gives the token table, the matcher contents and the count.
pub open spec fn english_fold(
    lines: Seq<Seq<char>>,
    i: int,
    v: Seq<Seq<char>>,
    m: Map<Seq<char>, Seq<EntryView>>,
    n: int,
) -> (Seq<Seq<char>>, Map<Seq<char>, Seq<EntryView>>, int)
    decreases lines.len() - i,
{
    if i < 0 || i >= lines.len() {
        (v, m, n)
    } else {
        let word = split_spec(lines[i], '\t')[0];
        let lw = lower_seq(word);
        if is_data_line_spec(lines[i]) && en_key_ok(lw) {
            let (v2, id) = intern_spec(v, lw);
            english_fold(
                lines,
                i + 1,
                v2,
                add_spec(m, lw, EntryView { text: word, pinyin: lw, lm_token: id as u32 }),
                n + 1,
            )
        } else {
            english_fold(lines, i + 1, v, m, n)
        }
    }
}

/// Read english.tsv: a matcher of the kept words, and how many were kept.
pub fn parse_english(text: &str, interner: &mut Interner) -> (r: (Matcher, usize))
    requires
        old(interner).wf(),
        old(interner)@.len() + lines_spec(text@).len() < 0xffff_ffffu32,
    ensures
        final(interner).wf(),
        old(interner)@.len() <= final(interner)@.len() <= old(interner)@.len() + lines_spec(text@).len(),
        final(interner)@.take(old(interner)@.len() as int) == old(interner)@,
        r.0.wf(),
        ({
            let (v, m, n) = english_fold(
                lines_spec(text@),
                0,
                old(interner)@,
                Map::<Seq<char>, Seq<EntryView>>::empty(),
                0,
            );
            final(interner)@ == v && r.0@ == m && r.1 == n
        }),
{
    let lines = lines_of(text);
    let ghost ls = lines_spec(text@);
    let ghost v0 = interner@;
    let mut m = Matcher::new();
    let mut n: usize = 0;
    let mut i: usize = 0;
    proof {
        crate::text::lemma_split_len(Seq::<char>::empty(), '\t');
    }
    while i < lines.len()
        invariant
            ls == lines_spec(text@),
            v0 == old(interner)@,
            lines@.len() == ls.len(),
            forall|k: int| 0 <= k < lines@.len() ==> #[trigger] lines@[k]@ == ls[k],
            i <= lines@.len(),
            interner.wf(),
            m.wf(),
            interner@.len() <= v0.len() + i,
            m.key_view().len() <= i,
            n <= i,
            v0.len() + ls.len() < 0xffff_ffffu32,
            v0.len() <= interner@.len(),
            interner@.take(v0.len() as int) == v0,
            english_fold(ls, 0, v0, Map::<Seq<char>, Seq<EntryView>>::empty(), 0)
                == english_fold(ls, i as int, interner@, m@, n as int),
        decreases lines@.len() - i,
    {
        let line = &lines[i];
        if is_data_line(line) {
            let cols = split_char(line.as_str(), '\t');
            proof {
                crate::text::lemma_split_len(ls[i as int], '\t');
            }
            let word = &cols[0];
            let lower = ascii_lowercase(word.as_str());
            if en_key_ok_exec(&lower) {
                let ghost vb = interner@;
                let id = interner.intern(lower.as_str());
                proof {
                    assert(interner@.take(vb.len() as int) =~= vb);
                    assert(interner@.take(v0.len() as int) =~= v0) by {
                        assert(interner@.take(vb.len() as int).take(v0.len() as int) =~= interner@.take(v0.len() as int));
                    }
                }
                let entry = Entry { text: word.clone(), pinyin: lower.clone(), lm_token: id };
                m.add(lower.as_str(), entry);
                n += 1;
            }
        }
        i += 1;
    }
    (m, n)
}

/// The one-letter string of the `i`-th letter of the alphabet.
pub open spec fn letter(i: int) -> Seq<char> {
    seq![('a' as u32 + i) as char]
}

/// The token table after interning the letters `a` up to letter `i - 1`
/// into `v`, in order.
pub open spec fn letters_fold(v: Seq<Seq<char>>, i: int) -> Seq<Seq<char>>
    decreases i,
{
    if i <= 0 {
        v
    } else {
        intern_spec(letters_fold(v, i - 1), letter(i - 1)).0
    }
}

/// Every string of `v` from position `from` on is one of `texts`.
pub open spec fn only_from(v: Seq<Seq<char>>, from: int, texts: Set<Seq<char>>) -> bool {
    forall|q: int| from <= q < v.len() ==> texts.contains(#[trigger] v[q])
}

/// Interned ids of the single letters a to z (fallback arcs).
pub fn letter_tokens(interner: &mut Interner) -> (r: [u32; 26])
    requires
        old(interner).wf(),
        old(interner)@.len() + 26 < 0xffff_ffffu32,
    ensures
        final(interner).wf(),
        old(interner)@.len() <= final(interner)@.len(),
        final(interner)@.take(old(interner)@.len() as int) == old(interner)@,
        final(interner)@ == letters_fold(old(interner)@, 26),
        forall|i: int| 0 <= i < 26 ==> final(interner)@.contains(#[trigger] letter(i))
            && r@[i] == id_of(final(interner)@, letter(i)),
{
    let mut r = [0u32; 26];
    let mut i: usize = 0;
    while i < 26
        invariant
            interner.wf(),
            interner@.len() <= old(interner)@.len() + i,
            old(interner)@.len() + 26 < 0xffff_ffffu32,
            old(interner)@.len() <= interner@.len(),
            interner@.take(old(interner)@.len() as int) == old(interner)@,
            interner@ == letters_fold(old(interner)@, i as int),
            i <= 26,
            forall|k: int| 0 <= k < i ==> interner@.contains(#[trigger] letter(k))
                && r@[k] == id_of(interner@, letter(k)),
        decreases 26 - i,
    {
        let b = (97 + i) as u8;
        let c = b as char;
        let mut s = String::new();
        crate::text::push_char(&mut s, c);
        let ghost before = interner@;
        let ghost r0 = r@;
        proof {
            interner.lemma_distinct();
            assert(c == ('a' as u32 + i) as char);
            assert(s@ == letter(i as int));
        }
        let id = interner.intern(s.as_str());
        r[i] = id;
        proof {
            assert(interner@.take(before.len() as int) =~= before);
            assert(interner@.take(old(interner)@.len() as int) =~= old(interner)@) by {
                assert(interner@.take(before.len() as int).take(old(interner)@.len() as int)
                    =~= interner@.take(old(interner)@.len() as int));
            }
            assert forall|k: int| 0 <= k < i + 1 implies interner@.contains(#[trigger] letter(k))
                && r@[k] == id_of(interner@, letter(k)) by {
                if k < i {
                    assert(before.contains(letter(k)));
                    assert(r@[k] == r0[k]);
                    crate::interner::lemma_intern_keeps_ids(before, s@, letter(k));
                } else {
                    crate::interner::lemma_intern_id(before, s@);
                }
            }
        }
        i += 1;
    }
    r
}

/// Words kept per pinyin key: the LM does the real ranking, the dictionary
/// only proposes candidates.
pub const MAX_WORDS_PER_KEY: usize = 8;
/// Single hanzi kept per pinyin key (chars need more variety).
pub const MAX_CHARS_PER_KEY: usize = 16;

/// A dictionary line with its weight read.
pub struct DictLine {
    pub key: String,
    pub text: String,
    pub weight: i64,
}

pub struct DictLineView {
    pub key: Seq<char>,
    pub text: Seq<char>,
    pub weight: i64,
}

pub open spec fn dict_view(v: Seq<DictLine>) -> Seq<DictLineView> {
    v.map_values(|l: DictLine| DictLineView { key: l.key@, text: l.text@, weight: l.weight })
}

/// A candidate word under one pinyin key.
pub struct Cand {
    pub weight: i64,
    pub text: String,
    /// The spaced syllables of its dictionary key.
    pub spaced: String,
}

pub struct CandView {
    pub weight: i64,
    pub text: Seq<char>,
    pub spaced: Seq<char>,
}

pub open spec fn cands_view(v: Seq<Cand>) -> Seq<CandView> {
    v.map_values(|c: Cand| CandView { weight: c.weight, text: c.text@, spaced: c.spaced@ })
}

/// Ranking of candidates: higher weight first, then text descending
/// (byte order).
pub open spec fn cand_before(a: CandView, b: CandView) -> bool {
    a.weight > b.weight || (a.weight == b.weight && bytes_lt(encode_utf8(b.text), encode_utf8(a.text)))
}

/// Stable insertion of `x` into the ranked `t`: after every candidate it
/// does not rank before.
pub open spec fn ins(t: Seq<CandView>, x: CandView) -> Seq<CandView>
    decreases t.len(),
{
    if t.len() == 0 {
        seq![x]
    } else if cand_before(x, t.last()) {
        ins(t.drop_last(), x).push(t.last())
    } else {
        t.push(x)
    }
}

/// The candidates ranked, a stable sort: equal ones keep their order.
pub open spec fn ranked(s: Seq<CandView>) -> Seq<CandView>
    decreases s.len(),
{
    if s.len() == 0 {
        seq![]
    } else {
        ins(ranked(s.drop_last()), s.last())
    }
}

pub proof fn lemma_ins_len(t: Seq<CandView>, x: CandView)
    ensures
        ins(t, x).len() == t.len() + 1,
    decreases t.len(),
{
    if t.len() > 0 && cand_before(x, t.last()) {
        lemma_ins_len(t.drop_last(), x);
    }
}

/// Ranking keeps every candidate.
pub proof fn lemma_ranked_len(s: Seq<CandView>)
    ensures
        ranked(s).len() == s.len(),
    decreases s.len(),
{
    if s.len() > 0 {
        lemma_ranked_len(s.drop_last());
        lemma_ins_len(ranked(s.drop_last()), s.last());
    }
}

/// No candidate ranks before an earlier one.
pub open spec fn ranked_ok(t: Seq<CandView>) -> bool {
    forall|i: int, j: int| 0 <= i < j < t.len() ==> !cand_before(#[trigger] t[j], #[trigger] t[i])
}

pub proof fn lemma_cand_order(a: CandView, b: CandView, c: CandView)
    ensures
        !cand_before(a, a),
        cand_before(a, b) ==> !cand_before(b, a),
        cand_before(a, b) && cand_before(b, c) ==> cand_before(a, c),
        cand_before(a, b) ==> cand_before(a, c) || cand_before(c, b),
{
    let (ea, eb, ec) = (encode_utf8(a.text), encode_utf8(b.text), encode_utf8(c.text));
    crate::readings::lemma_bytes_lt_irrefl(ea);
    crate::readings::lemma_bytes_lt_total(ea, eb);
    crate::readings::lemma_bytes_lt_total(eb, ec);
    crate::readings::lemma_bytes_lt_total(ea, ec);
    if bytes_lt(eb, ea) && bytes_lt(ec, eb) {
        crate::readings::lemma_bytes_lt_trans(ec, eb, ea);
    }
    if bytes_lt(eb, ea) && bytes_lt(ec, eb) {
        crate::readings::lemma_bytes_lt_trans(ec, eb, ea);
    }
    if bytes_lt(ec, ea) && bytes_lt(eb, ec) {
        crate::readings::lemma_bytes_lt_trans(eb, ec, ea);
    }
    if bytes_lt(eb, ec) && bytes_lt(ec, ea) {
        crate::readings::lemma_bytes_lt_trans(eb, ec, ea);
    }
}

pub proof fn lemma_ins_elems(t: Seq<CandView>, x: CandView)
    ensures
        forall|i: int| 0 <= i < ins(t, x).len() ==> #[trigger] ins(t, x)[i] == x || t.contains(ins(t, x)[i]),
    decreases t.len(),
{
    lemma_ins_len(t, x);
    if t.len() > 0 && cand_before(x, t.last()) {
        lemma_ins_elems(t.drop_last(), x);
        let r = ins(t.drop_last(), x);
        lemma_ins_len(t.drop_last(), x);
        assert forall|i: int| 0 <= i < ins(t, x).len() implies #[trigger] ins(t, x)[i] == x || t.contains(ins(t, x)[i]) by {
            if i < r.len() {
                assert(ins(t, x)[i] == r[i]);
                if r[i] != x {
                    let k = choose|k: int| 0 <= k < t.drop_last().len() && t.drop_last()[k] == r[i];
                    assert(t[k] == r[i]);
                }
            } else {
                assert(ins(t, x)[i] == t[t.len() - 1]);
            }
        }
    } else if t.len() > 0 {
        assert forall|i: int| 0 <= i < ins(t, x).len() implies #[trigger] ins(t, x)[i] == x || t.contains(ins(t, x)[i]) by {
            if i < t.len() {
                assert(ins(t, x)[i] == t[i]);
            }
        }
    }
}

pub proof fn lemma_ins_ranked(t: Seq<CandView>, x: CandView)
    requires
        ranked_ok(t),
    ensures
        ranked_ok(ins(t, x)),
    decreases t.len(),
{
    lemma_ins_len(t, x);
    if t.len() == 0 {
    } else if cand_before(x, t.last()) {
        let d = t.drop_last();
        let l = t.last();
        assert(ranked_ok(d)) by {
            assert forall|i: int, j: int| 0 <= i < j < d.len() implies !cand_before(#[trigger] d[j], #[trigger] d[i]) by {
                assert(d[i] == t[i] && d[j] == t[j]);
            }
        }
        lemma_ins_ranked(d, x);
        lemma_ins_elems(d, x);
        lemma_ins_len(d, x);
        let r = ins(d, x);
        let out = ins(t, x);
        assert(out == r.push(l));
        assert forall|i: int, j: int| 0 <= i < j < out.len() implies !cand_before(#[trigger] out[j], #[trigger] out[i]) by {
            if j < r.len() {
                assert(out[i] == r[i] && out[j] == r[j]);
            } else {
                assert(out[j] == l);
                assert(out[i] == r[i]);
                if r[i] == x {
                    lemma_cand_order(x, l, l);
                } else {
                    let k = choose|k: int| 0 <= k < d.len() && d[k] == r[i];
                    assert(t[k] == r[i]);
                    assert(t[t.len() - 1] == l);
                }
            }
        }
    } else {
        let l = t.last();
        let out = t.push(x);
        assert forall|i: int, j: int| 0 <= i < j < out.len() implies !cand_before(#[trigger] out[j], #[trigger] out[i]) by {
            if j < t.len() {
                assert(out[i] == t[i] && out[j] == t[j]);
            } else {
                assert(out[j] == x);
                assert(out[i] == t[i]);
                if i < t.len() - 1 {
                    assert(t[t.len() - 1] == l);
                    lemma_cand_order(x, t[i], l);
                }
            }
        }
    }
}

/// Ranking puts candidates in order: heavier first, and among equal
/// weights the text that sorts later first; the ranked list holds the same
/// number of candidates.
pub proof fn law_ranked_sorted(s: Seq<CandView>)
    ensures
        ranked(s).len() == s.len(),
        forall|i: int, j: int| 0 <= i < j < ranked(s).len() ==> !cand_before(
            #[trigger] ranked(s)[j],
            #[trigger] ranked(s)[i],
        ),
    decreases s.len(),
{
    lemma_ranked_len(s);
    if s.len() > 0 {
        law_ranked_sorted(s.drop_last());
        lemma_ins_ranked(ranked(s.drop_last()), s.last());
    }
}

/// Whether `a`'s bytes sort strictly before `b`'s.
pub fn str_bytes_lt(a: &str, b: &str) -> (r: bool)
    ensures
        r == bytes_lt(encode_utf8(a@), encode_utf8(b@)),
{
    let x = a.as_bytes();
    let y = b.as_bytes();
    let mut i: usize = 0;
    assert(x@.skip(0) =~= x@);
    assert(y@.skip(0) =~= y@);
    while i < x.len() && i < y.len()
        invariant
            x@ == encode_utf8(a@),
            y@ == encode_utf8(b@),
            i <= x@.len(),
            i <= y@.len(),
            bytes_lt(x@, y@) == bytes_lt(x@.skip(i as int), y@.skip(i as int)),
        decreases x@.len() - i,
    {
        proof {
            assert(x@.skip(i as int).drop_first() =~= x@.skip(i + 1));
            assert(y@.skip(i as int).drop_first() =~= y@.skip(i + 1));
        }
        if x[i] != y[i] {
            return x[i] < y[i];
        }
        i += 1;
    }
    i < y.len()
}

fn cand_before_exec(a: &Cand, b: &Cand) -> (r: bool)
    ensures
        r == cand_before(CandView { weight: a.weight, text: a.text@, spaced: a.spaced@ },
            CandView { weight: b.weight, text: b.text@, spaced: b.spaced@ }),
{
    a.weight > b.weight || (a.weight == b.weight && str_bytes_lt(b.text.as_str(), a.text.as_str()))
}

/// Rank candidates (stable insertion sort).
pub fn rank_cands(v: Vec<Cand>) -> (r: Vec<Cand>)
    ensures
        cands_view(r@) == ranked(cands_view(v@)),
{
    let ghost orig = cands_view(v@);
    let mut v = v;
    let n = v.len();
    let mut out: Vec<Cand> = Vec::new();
    let mut i: usize = 0;
    assert(orig.take(0) =~= Seq::<CandView>::empty());
    while i < n
        invariant
            n == orig.len(),
            v@.len() == n,
            i <= n,
            forall|t: int| i <= t < n ==> cands_view(v@)[t] == #[trigger] orig[t],
            cands_view(out@) == ranked(orig.take(i as int)),
        decreases n - i,
    {
        let ghost xv = orig[i as int];
        let ghost v_before = v@;
        assert(cands_view(v@)[i as int] == xv);
        let mut x = Cand { weight: 0, text: String::new(), spaced: String::new() };
        std::mem::swap(&mut x, &mut v[i]);
        assert(x == v_before[i as int]);
        assert(xv == (CandView { weight: x.weight, text: x.text@, spaced: x.spaced@ }));
        proof {
            assert forall|t: int| i < t < n implies cands_view(v@)[t] == #[trigger] orig[t] by {
                assert(v@[t] == v_before[t]);
                assert(cands_view(v_before)[t] == orig[t]);
            }
        }
        let ghost t = cands_view(out@);
        let mut p = out.len();
        assert(t.take(p as int) =~= t);
        assert(t.skip(p as int) =~= Seq::<CandView>::empty());
        while p > 0 && cand_before_exec(&x, &out[p - 1])
            invariant
                t == cands_view(out@),
                xv == (CandView { weight: x.weight, text: x.text@, spaced: x.spaced@ }),
                p <= t.len(),
                ins(t, xv) == ins(t.take(p as int), xv) + t.skip(p as int),
            decreases p,
        {
            proof {
                assert(t.take(p as int).last() == t[p - 1]);
                assert(t.take(p as int).drop_last() =~= t.take(p - 1));
                assert(t.skip(p - 1) =~= seq![t[p - 1]] + t.skip(p as int));
                assert(ins(t.take(p - 1), xv).push(t[p - 1]) + t.skip(p as int)
                    =~= ins(t.take(p - 1), xv) + t.skip(p - 1));
            }
            p -= 1;
        }
        proof {
            if p == 0 {
                assert(t.take(0) =~= Seq::<CandView>::empty());
            } else {
                assert(t.take(p as int).last() == t[p - 1]);
            }
        }
        out.insert(p, x);
        proof {
            assert(cands_view(out@) =~= t.take(p as int) + seq![xv] + t.skip(p as int));
            assert(ins(t.take(p as int), xv) =~= t.take(p as int).push(xv));
            assert(orig.take(i + 1).drop_last() =~= orig.take(i as int));
            assert(orig.take(i + 1).last() == xv);
        }
        i += 1;
    }
    assert(orig.take(n as int) =~= orig);
    out
}

/// A text of one character (a single hanzi entry).
pub open spec fn is_single(text: Seq<char>) -> bool {
    text.len() == 1
}

pub open spec fn cand_of(l: DictLineView) -> CandView {
    CandView { weight: l.weight, text: l.text, spaced: l.key }
}

/// Whether line `l` belongs under the concatenated key `k` among single
/// hanzi (`single`) or among words.
pub open spec fn in_bucket(l: DictLineView, k: Seq<char>, single: bool) -> bool {
    without_spaces(l.key) == k && is_single(l.text) == single
}

/// The candidates under the concatenated key `k`, in file order.
pub open spec fn bucket(lines: Seq<DictLineView>, k: Seq<char>, single: bool) -> Seq<CandView>
    decreases lines.len(),
{
    if lines.len() == 0 {
        seq![]
    } else if in_bucket(lines.last(), k, single) {
        bucket(lines.drop_last(), k, single).push(cand_of(lines.last()))
    } else {
        bucket(lines.drop_last(), k, single)
    }
}

/// Total number of candidates held in `s`.
pub open spec fn sum_lens(s: Seq<Vec<Cand>>) -> int
    decreases s.len(),
{
    if s.len() == 0 {
        0
    } else {
        sum_lens(s.drop_last()) + s.last()@.len()
    }
}

pub proof fn lemma_sum_lens_update(s: Seq<Vec<Cand>>, b: int, x: Vec<Cand>)
    requires
        0 <= b < s.len(),
    ensures
        sum_lens(s.update(b, x)) == sum_lens(s) - s[b]@.len() + x@.len(),
    decreases s.len(),
{
    if b == s.len() - 1 {
        assert(s.update(b, x).drop_last() =~= s.drop_last());
    } else {
        assert(s.update(b, x).drop_last() =~= s.drop_last().update(b, x));
        lemma_sum_lens_update(s.drop_last(), b, x);
    }
}

pub proof fn lemma_sum_lens_take(s: Seq<Vec<Cand>>, b: int)
    requires
        0 <= b < s.len(),
    ensures
        sum_lens(s.take(b + 1)) == sum_lens(s.take(b)) + s[b]@.len(),
{
    assert(s.take(b + 1).drop_last() =~= s.take(b));
}

pub proof fn lemma_sum_lens_le(s: Seq<Vec<Cand>>, b: int)
    requires
        0 <= b <= s.len(),
    ensures
        sum_lens(s.take(b)) <= sum_lens(s),
    decreases s.len() - b,
{
    if b < s.len() {
        lemma_sum_lens_take(s, b);
        lemma_sum_lens_le(s, b + 1);
    } else {
        assert(s.take(b) =~= s);
    }
}

/// How many lines are of one class.
pub open spec fn class_count(lines: Seq<DictLineView>, single: bool) -> int
    decreases lines.len(),
{
    if lines.len() == 0 {
        0
    } else {
        class_count(lines.drop_last(), single) + (if is_single(lines.last().text) == single { 1int } else { 0int })
    }
}

pub proof fn lemma_class_count(lines: Seq<DictLineView>)
    ensures
        class_count(lines, true) + class_count(lines, false) == lines.len(),
        class_count(lines, true) >= 0,
        class_count(lines, false) >= 0,
    decreases lines.len(),
{
    if lines.len() > 0 {
        lemma_class_count(lines.drop_last());
    }
}

pub proof fn lemma_without_spaces_ascii(s: Seq<char>)
    requires
        is_ascii_seq(s),
    ensures
        is_ascii_seq(without_spaces(s)),
    decreases s.len(),
{
    if s.len() > 0 {
        assert(is_ascii_seq(s.drop_last())) by {
            assert forall|i: int| 0 <= i < s.drop_last().len() implies '\0' <= #[trigger] s.drop_last()[i] <= '\u{7f}' by {
                assert(s.drop_last()[i] == s[i]);
            }
        }
        lemma_without_spaces_ascii(s.drop_last());
        let w = without_spaces(s.drop_last());
        if s.last() != ' ' {
            assert forall|i: int| 0 <= i < w.push(s.last()).len() implies '\0' <= #[trigger] w.push(s.last())[i] <= '\u{7f}' by {
                if i < w.len() {
                    assert(w.push(s.last())[i] == w[i]);
                }
            }
        }
    }
}

/// Group the lines of one class (single hanzi or words) by concatenated
/// key: the keys in order of first appearance and, for each, its
/// candidates in file order.
pub fn collect_buckets(lines: &Vec<DictLine>, single: bool) -> (r: (Interner, Vec<Vec<Cand>>))
    requires
        lines@.len() < 0xffff_ffffu32,
        forall|i: int| 0 <= i < lines@.len() ==> is_ascii_seq(#[trigger] lines@[i].key@),
    ensures
        forall|b: int| 0 <= b < r.0@.len() ==> is_ascii_seq(#[trigger] r.0@[b]),
        sum_lens(r.1@) == class_count(dict_view(lines@), single),
        r.0.wf(),
        r.1@.len() == r.0@.len(),
        forall|b: int| 0 <= b < r.1@.len() ==> cands_view(#[trigger] r.1@[b]@) == bucket(
            dict_view(lines@),
            r.0@[b],
            single,
        ),
        forall|k: Seq<char>| #[trigger] r.0@.contains(k) <==> bucket(dict_view(lines@), k, single).len() > 0,
        sum_lens(r.1@) <= lines@.len(),
{
    let ghost lv = dict_view(lines@);
    let mut keys = Interner::new();
    let mut buckets: Vec<Vec<Cand>> = Vec::new();
    let mut i: usize = 0;
    proof {
        assert forall|k: Seq<char>| #[trigger] keys@.contains(k) <==> bucket(lv.take(0), k, single).len() > 0 by {
            assert(lv.take(0).len() == 0);
        }
    }
    while i < lines.len()
        invariant
            lv == dict_view(lines@),
            lines@.len() < 0xffff_ffffu32,
            i <= lines@.len(),
            keys.wf(),
            keys@.len() <= i,
            buckets@.len() == keys@.len(),
            forall|b: int| 0 <= b < buckets@.len() ==> cands_view(#[trigger] buckets@[b]@) == bucket(
                lv.take(i as int),
                keys@[b],
                single,
            ),
            forall|k: Seq<char>| #[trigger] keys@.contains(k) <==> bucket(lv.take(i as int), k, single).len() > 0,
            sum_lens(buckets@) <= i,
            sum_lens(buckets@) == class_count(lv.take(i as int), single),
            forall|j: int| 0 <= j < lines@.len() ==> is_ascii_seq(#[trigger] lines@[j].key@),
            forall|b: int| 0 <= b < keys@.len() ==> is_ascii_seq(#[trigger] keys@[b]),
        decreases lines@.len() - i,
    {
        let line = &lines[i];
        let ghost li = lv[i as int];
        proof {
            assert(lv.take(i + 1).drop_last() =~= lv.take(i as int));
            assert(lv.take(i + 1).last() == li);
        }
        let n_chars = crate::text::to_chars(line.text.as_str()).len();
        if (n_chars == 1) == single {
            let concat = without_spaces_exec(line.key.as_str());
            proof {
                assert(is_ascii_seq(lines@[i as int].key@));
                lemma_without_spaces_ascii(line.key@);
            }
            let ghost kv = keys@;
            let ghost bv = buckets@;
            proof {
                keys.lemma_distinct();
            }
            let b = keys.intern(concat.as_str());
            let cand = Cand { weight: line.weight, text: line.text.clone(), spaced: line.key.clone() };
            if b as usize == buckets.len() {
                let mut fresh: Vec<Cand> = Vec::new();
                fresh.push(cand);
                buckets.push(fresh);
                proof {
                    assert(!kv.contains(concat@));
                    assert(keys@ == kv.push(concat@));
                    assert(bucket(lv.take(i as int), concat@, single).len() == 0);
                    assert(bucket(lv.take(i as int), concat@, single) =~= Seq::<CandView>::empty());
                    assert(buckets@.drop_last() =~= bv);
                }
            } else {
                let ghost old_b = buckets@[b as int];
                buckets[b as usize].push(cand);
                proof {
                    assert(kv.contains(concat@));
                    assert(keys@ == kv);
                    crate::interner::lemma_intern_id(kv, concat@);
                    assert(kv[b as int] == concat@);
                    lemma_sum_lens_update(bv, b as int, buckets@[b as int]);
                    assert(buckets@ =~= bv.update(b as int, buckets@[b as int]));
                    assert(cands_view(buckets@[b as int]@) =~= cands_view(old_b@).push(cand_of(li)));
                }
            }
            proof {
                assert forall|bb: int| 0 <= bb < buckets@.len() implies cands_view(#[trigger] buckets@[bb]@)
                    == bucket(lv.take(i + 1), keys@[bb], single) by {
                    if keys@[bb] != concat@ {
                        if bb < bv.len() {
                            assert(buckets@[bb] == bv[bb]);
                        }
                    } else {
                        crate::interner::lemma_intern_id(kv, concat@);
                        keys.lemma_distinct();
                    }
                }
                assert forall|k: Seq<char>| #[trigger] keys@.contains(k) <==> bucket(lv.take(i + 1), k, single).len() > 0 by {
                    if k != concat@ {
                        if keys@.contains(k) {
                            let j = choose|j: int| 0 <= j < keys@.len() && keys@[j] == k;
                            if j < kv.len() {
                                assert(kv[j] == k);
                                assert(kv.contains(k));
                            }
                        }
                        if kv.contains(k) {
                            let j = choose|j: int| 0 <= j < kv.len() && kv[j] == k;
                            assert(keys@[j] == k);
                        }
                    } else {
                        crate::interner::lemma_intern_id(kv, concat@);
                    }
                }
            }
        } else {
            proof {
                assert forall|bb: int| 0 <= bb < buckets@.len() implies cands_view(#[trigger] buckets@[bb]@)
                    == bucket(lv.take(i + 1), keys@[bb], single) by {
                }
                assert forall|k: Seq<char>| #[trigger] keys@.contains(k) <==> bucket(lv.take(i + 1), k, single).len() > 0 by {
                }
            }
        }
        i += 1;
    }
    assert(lv.take(i as int) =~= lv);
    (keys, buckets)
}

/// How many candidates a key keeps.
pub open spec fn cap_of(single: bool) -> int {
    if single {
        MAX_CHARS_PER_KEY as int
    } else {
        MAX_WORDS_PER_KEY as int
    }
}

/// The first `n` of `s` (all of it when shorter).
pub open spec fn top(s: Seq<CandView>, n: int) -> Seq<CandView> {
    if s.len() <= n {
        s
    } else {
        s.take(n)
    }
}

/// The candidates a key keeps: its best ranked, up to the cap.
pub open spec fn kept(lines: Seq<DictLineView>, k: Seq<char>, single: bool) -> Seq<CandView> {
    top(ranked(bucket(lines, k, single)), cap_of(single))
}

/// Matcher entries for candidates `cs`: same texts and spaced pinyin, in
/// order, each with the id of its text in the token table `v`.
pub open spec fn entries_match(es: Seq<EntryView>, cs: Seq<CandView>, v: Seq<Seq<char>>) -> bool {
    &&& es.len() == cs.len()
    &&& forall|i: int| 0 <= i < es.len() ==> {
        &&& (#[trigger] es[i]).text == cs[i].text
        &&& es[i].pinyin == cs[i].spaced
        &&& (es[i].lm_token as int) < v.len()
        &&& v[es[i].lm_token as int] == cs[i].text
    }
}

/// The keys a matcher of one class has: every nonempty concatenated key
/// with a candidate.
pub open spec fn dict_dom(lines: Seq<DictLineView>, single: bool) -> Set<Seq<char>> {
    Set::new(|k: Seq<char>| k.len() > 0 && bucket(lines, k, single).len() > 0)
}

/// Texts kept under some key of one class.
pub open spec fn kept_texts(lines: Seq<DictLineView>, single: bool) -> Set<Seq<char>> {
    Set::new(|s: Seq<char>| exists|k: Seq<char>, i: int| 0 <= i < kept(lines, k, single).len()
        && (#[trigger] kept(lines, k, single)[i]).text == s)
}

/// Ids, in the token table `v`, of the strings in `texts`.
pub open spec fn tokens_for(texts: Set<Seq<char>>, v: Seq<Seq<char>>) -> Set<u32> {
    Set::new(|t: u32| (t as int) < v.len() && texts.contains(v[t as int]))
}

/// Texts kept under the first `b` keys.
pub open spec fn texts_upto(lines: Seq<DictLineView>, keys: Seq<Seq<char>>, b: int, single: bool) -> Set<Seq<char>> {
    Set::new(|s: Seq<char>| exists|bb: int, i: int| 0 <= bb < b && 0 <= i < kept(lines, keys[bb], single).len()
        && (#[trigger] kept(lines, keys[bb], single)[i]).text == s)
}

pub proof fn lemma_entries_grow(es: Seq<EntryView>, cs: Seq<CandView>, v: Seq<Seq<char>>, w: Seq<Seq<char>>)
    requires
        entries_match(es, cs, v),
        v.len() <= w.len(),
        w.take(v.len() as int) == v,
    ensures
        entries_match(es, cs, w),
{
    assert forall|i: int| 0 <= i < es.len() implies (es[i].lm_token as int) < w.len()
        && w[es[i].lm_token as int] == cs[i].text by {
        assert(w.take(v.len() as int)[es[i].lm_token as int] == w[es[i].lm_token as int]);
    }
}

/// Ids of strings already in a table do not change as it grows.
pub proof fn lemma_tokens_for_grow(a: Set<Seq<char>>, v: Seq<Seq<char>>, w: Seq<Seq<char>>)
    requires
        forall|s: Seq<char>| #[trigger] a.contains(s) ==> v.contains(s),
        v.len() <= w.len(),
        w.take(v.len() as int) == v,
        distinct(w),
    ensures
        tokens_for(a, v) == tokens_for(a, w),
{
    assert forall|t: u32| tokens_for(a, w).contains(t) implies tokens_for(a, v).contains(t) by {
        let s = w[t as int];
        assert(v.contains(s));
        let k = choose|k: int| 0 <= k < v.len() && v[k] == s;
        assert(w.take(v.len() as int)[k] == w[k]);
        if (t as int) >= v.len() {
            assert(w[k] == w[t as int]);
            assert(false);
        }
        assert(w.take(v.len() as int)[t as int] == w[t as int]);
    }
    assert forall|t: u32| tokens_for(a, v).contains(t) implies tokens_for(a, w).contains(t) by {
        assert(w.take(v.len() as int)[t as int] == w[t as int]);
    }
    assert(tokens_for(a, v) =~= tokens_for(a, w));
}

/// Fill the matcher of one class: each key's candidates ranked and cut
/// to the cap, each text interned and its id recorded in `tokens`.
fn fill_matcher(
    keys: &Interner,
    buckets: Vec<Vec<Cand>>,
    Ghost(lv): Ghost<Seq<DictLineView>>,
    single: bool,
    interner: &mut Interner,
    matcher: &mut Matcher,
    tokens: &mut TokenSet,
)
    requires
        keys.wf(),
        buckets@.len() == keys@.len(),
        forall|b: int| 0 <= b < buckets@.len() ==> cands_view(#[trigger] buckets@[b]@) == bucket(lv, keys@[b], single),
        forall|k: Seq<char>| #[trigger] keys@.contains(k) <==> bucket(lv, k, single).len() > 0,
        forall|b: int| 0 <= b < keys@.len() ==> is_ascii_seq(#[trigger] keys@[b]),
        old(interner).wf(),
        old(interner)@.len() + sum_lens(buckets@) < 0xffff_ffffu32,
        old(matcher).wf(),
        old(matcher)@ == Map::<Seq<char>, Seq<EntryView>>::empty(),
        old(matcher).key_view().len() == 0,
        sum_lens(buckets@) + 1 < 0xffff_ffffu32,
    ensures
        final(interner).wf(),
        old(interner)@.len() <= final(interner)@.len() <= old(interner)@.len() + sum_lens(buckets@),
        final(interner)@.take(old(interner)@.len() as int) == old(interner)@,
        final(matcher).wf(),
        final(matcher)@.dom() == dict_dom(lv, single),
        forall|k: Seq<char>| #[trigger] final(matcher)@.contains_key(k) ==> entries_match(
            final(matcher)@[k],
            kept(lv, k, single),
            final(interner)@,
        ),
        forall|s: Seq<char>| #[trigger] kept_texts(lv, single).contains(s) ==> final(interner)@.contains(s),
        only_from(final(interner)@, old(interner)@.len() as int, kept_texts(lv, single)),
        final(tokens)@ == old(tokens)@.union(tokens_for(kept_texts(lv, single), final(interner)@)),
{
    let ghost v0 = interner@;
    let ghost t0 = tokens@;
    let ghost kv = keys@;
    let ghost bv = buckets@;
    let mut buckets = buckets;
    let n = buckets.len();
    let mut b: usize = 0;
    proof {
        assert(matcher@.dom() =~= Set::new(|k: Seq<char>| kv.take(0).contains(k) && k.len() > 0));
        assert(texts_upto(lv, kv, 0, single) =~= Set::<Seq<char>>::empty());
        assert(tokens_for(Set::<Seq<char>>::empty(), interner@) =~= Set::<u32>::empty());
        assert(tokens@ =~= t0.union(tokens_for(texts_upto(lv, kv, 0, single), interner@)));
        assert(interner@.take(v0.len() as int) =~= v0);
        assert(bv.take(0) =~= Seq::<Vec<Cand>>::empty());
    }
    while b < n
        invariant
            kv == keys@,
            keys.wf(),
            n == bv.len() == kv.len(),
            buckets@.len() == n,
            forall|bb: int| b <= bb < n ==> #[trigger] buckets@[bb] == bv[bb],
            forall|bb: int| 0 <= bb < bv.len() ==> cands_view(#[trigger] bv[bb]@) == bucket(lv, kv[bb], single),
            forall|bb: int| 0 <= bb < kv.len() ==> is_ascii_seq(#[trigger] kv[bb]),
            forall|k: Seq<char>| #[trigger] kv.contains(k) <==> bucket(lv, k, single).len() > 0,
            b <= n,
            interner.wf(),
            matcher.wf(),
            v0.len() <= interner@.len() <= v0.len() + sum_lens(bv.take(b as int)),
            matcher.key_view().len() <= sum_lens(bv.take(b as int)),
            v0.len() + sum_lens(bv) < 0xffff_ffffu32,
            sum_lens(bv) + 1 < 0xffff_ffffu32,
            interner@.take(v0.len() as int) == v0,
            only_from(interner@, v0.len() as int, kept_texts(lv, single)),
            matcher@.dom() == Set::new(|k: Seq<char>| kv.take(b as int).contains(k) && k.len() > 0),
            forall|k: Seq<char>| #[trigger] matcher@.contains_key(k) ==> entries_match(
                matcher@[k],
                kept(lv, k, single),
                interner@,
            ),
            forall|s: Seq<char>| #[trigger] texts_upto(lv, kv, b as int, single).contains(s) ==> interner@.contains(s),
            tokens@ == t0.union(tokens_for(texts_upto(lv, kv, b as int, single), interner@)),
        decreases n - b,
    {
        let mut cands: Vec<Cand> = Vec::new();
        std::mem::swap(&mut cands, &mut buckets[b]);
        assert(cands == bv[b as int]);
        let mut cands = rank_cands(cands);
        let cap: usize = if single { MAX_CHARS_PER_KEY } else { MAX_WORDS_PER_KEY };
        cands.truncate(cap);
        let ghost kb = kv[b as int];
        let ghost kc = kept(lv, kb, single);
        proof {
            assert(cands_view(cands@) =~= kc);
            lemma_sum_lens_take(bv, b as int);
            lemma_sum_lens_le(bv, b as int + 1);
            crate::artifacts::lemma_ranked_len(bucket(lv, kb, single));
        }
        proof {
            keys.lemma_distinct();
            if kv.take(b as int).contains(kb) {
                let w = choose|w: int| 0 <= w < kv.take(b as int).len() && #[trigger] kv.take(b as int)[w] == kb;
                assert(kv[w] == kv[b as int]);
            }
        }
        let key = keys.resolve(b as u32);
        let ghost m0 = matcher@;
        let ghost v_b = interner@;
        let ghost tok_b = tokens@;
        let mut j: usize = 0;
        while j < cands.len()
            invariant
                kv == keys@,
                keys.wf(),
                b < n == kv.len(),
                key@ == kb,
                kb == kv[b as int],
                is_ascii_seq(kb),
                kc == kept(lv, kb, single),
                cands_view(cands@) == kc,
                kc.len() <= bv[b as int]@.len(),
                j <= cands@.len(),
                interner.wf(),
                matcher.wf(),
                v_b.len() <= interner@.len() <= v_b.len() + j,
                interner@.take(v_b.len() as int) == v_b,
                v_b.len() + bv[b as int]@.len() < 0xffff_ffffu32,
                matcher.key_view().len() <= sum_lens(bv.take(b as int)) + j,
                sum_lens(bv.take(b as int)) + bv[b as int]@.len() + 1 < 0xffff_ffffu32,
                !m0.contains_key(kb),
                matcher@.dom() == (if j > 0 && kb.len() > 0 { m0.dom().insert(kb) } else { m0.dom() }),
                forall|k: Seq<char>| #[trigger] matcher@.contains_key(k) && k != kb ==> matcher@[k] == m0[k],
                j > 0 && kb.len() > 0 ==> entries_match(matcher@[kb], kc.take(j as int), interner@),
                forall|i: int| 0 <= i < j ==> interner@.contains(#[trigger] kc[i].text),
                tokens@ == tok_b.union(tokens_for(Set::new(|s: Seq<char>| exists|i: int| 0 <= i < j && (#[trigger] kc[i]).text == s), interner@)),
                buckets@.len() == n,
                forall|bb: int| b < bb < n ==> #[trigger] buckets@[bb] == bv[bb],
                v0.len() <= v_b.len() <= v0.len() + sum_lens(bv.take(b as int)),
                v_b.take(v0.len() as int) == v0,
                only_from(interner@, v0.len() as int, kept_texts(lv, single)),
                tok_b == t0.union(tokens_for(texts_upto(lv, kv, b as int, single), v_b)),
                forall|s: Seq<char>| #[trigger] texts_upto(lv, kv, b as int, single).contains(s) ==> v_b.contains(s),
                m0.dom() == Set::new(|k: Seq<char>| kv.take(b as int).contains(k) && k.len() > 0),
                forall|k: Seq<char>| #[trigger] m0.contains_key(k) ==> entries_match(m0[k], kept(lv, k, single), v_b),
            decreases cands@.len() - j,
        {
            let ghost vj = interner@;
            proof {
                interner.lemma_distinct();
                assert(kc[j as int] == (CandView { weight: cands@[j as int].weight, text: cands@[j as int].text@, spaced: cands@[j as int].spaced@ }));
            }
            let id = interner.intern(cands[j].text.as_str());
            tokens.insert(id);
            let entry = Entry { text: cands[j].text.clone(), pinyin: cands[j].spaced.clone(), lm_token: id };
            let ghost mj = matcher@;
            matcher.add(key, entry);
            proof {
                let x = kc[j as int];
                crate::interner::lemma_intern_id(vj, x.text);
                crate::interner::law_resolve_intern(vj, x.text);
                interner.lemma_distinct();
                assert(interner@.take(vj.len() as int) =~= vj);
                assert(interner@.take(v_b.len() as int) =~= v_b) by {
                    assert(interner@.take(vj.len() as int).take(v_b.len() as int) =~= interner@.take(v_b.len() as int));
                }
                assert(kc.take(j + 1) =~= kc.take(j as int).push(x));
                assert(kept_texts(lv, single).contains(x.text)) by {
                    assert(kept(lv, kb, single)[j as int].text == x.text);
                }
                assert forall|q: int| v0.len() <= q < interner@.len()
                    implies kept_texts(lv, single).contains(#[trigger] interner@[q]) by {
                    if q < vj.len() {
                        assert(interner@.take(vj.len() as int)[q] == vj[q]);
                    }
                }
                if kb.len() > 0 {
                    if j > 0 {
                        lemma_entries_grow(mj[kb], kc.take(j as int), vj, interner@);
                        assert(matcher@[kb] =~= mj[kb].push(entry@));
                    } else {
                        assert(matcher@[kb] =~= seq![entry@]);
                    }
                    assert(entries_match(matcher@[kb], kc.take(j + 1), interner@));
                }
                assert(matcher@.dom() =~= (if j + 1 > 0 && kb.len() > 0 { m0.dom().insert(kb) } else { m0.dom() }));
                assert forall|i: int| 0 <= i < j + 1 implies interner@.contains(#[trigger] kc[i].text) by {
                    if i < j {
                        crate::interner::lemma_intern_keeps_ids(vj, x.text, kc[i].text);
                    }
                }
                let pj = Set::new(|s: Seq<char>| exists|i: int| 0 <= i < j && (#[trigger] kc[i]).text == s);
                let pj1 = Set::new(|s: Seq<char>| exists|i: int| 0 <= i < j + 1 && (#[trigger] kc[i]).text == s);
                assert(pj1 =~= pj.insert(x.text)) by {
                    assert(pj1.contains(x.text) ) by {
                        assert(kc[j as int].text == x.text);
                    }
                }
                assert(tokens_for(pj1, interner@) =~= tokens_for(pj, vj).insert(id)) by {
                    assert forall|t: u32| tokens_for(pj1, interner@).contains(t) implies tokens_for(pj, vj).insert(id).contains(t) by {
                        if t != id {
                            if (t as int) >= vj.len() {
                                assert(interner@.len() == vj.len() + 1);
                                assert(t as int == vj.len());
                            }
                            assert(interner@[t as int] == vj[t as int]);
                            if interner@[t as int] == x.text {
                                assert(interner@[id as int] == x.text);
                            }
                        }
                    }
                    assert forall|t: u32| tokens_for(pj, vj).insert(id).contains(t) implies tokens_for(pj1, interner@).contains(t) by {
                        if t != id {
                            assert(interner@[t as int] == vj[t as int]);
                        }
                    }
                }
            }
            j += 1;
        }
        proof {
            assert(cands_view(cands@).take(j as int) =~= kc);
            assert(kv.take(b + 1) =~= kv.take(b as int).push(kb));
            assert(matcher@.dom() =~= Set::new(|k: Seq<char>| kv.take(b + 1).contains(k) && k.len() > 0)) by {
                assert forall|k: Seq<char>| kv.take(b + 1).contains(k) && k.len() > 0 implies matcher@.dom().contains(k) by {
                    if k != kb {
                        let w = choose|w: int| 0 <= w < kv.take(b + 1).len() && #[trigger] kv.take(b + 1)[w] == k;
                        assert(kv.take(b as int)[w] == k);
                        assert(kv.take(b as int).contains(k));
                    } else {
                        assert(kv[b as int] == kb);
                        assert(kv.contains(kb));
                        assert(bucket(lv, kb, single).len() > 0);
                        crate::artifacts::lemma_ranked_len(bucket(lv, kb, single));
                        assert(j > 0);
                    }
                }
                assert forall|k: Seq<char>| matcher@.dom().contains(k) implies kv.take(b + 1).contains(k) && k.len() > 0 by {
                    if k == kb {
                        assert(kv.take(b + 1)[b as int] == kb);
                    } else {
                        assert(m0.dom().contains(k));
                        let w = choose|w: int| 0 <= w < kv.take(b as int).len() && #[trigger] kv.take(b as int)[w] == k;
                        assert(kv.take(b + 1)[w] == k);
                    }
                }
            }
            assert forall|k: Seq<char>| #[trigger] matcher@.contains_key(k) implies entries_match(
                matcher@[k], kept(lv, k, single), interner@) by {
                if k != kb {
                    lemma_entries_grow(m0[k], kept(lv, k, single), v_b, interner@);
                }
            }
            assert forall|s: Seq<char>| #[trigger] texts_upto(lv, kv, b + 1, single).contains(s) implies interner@.contains(s) by {
                let (bb, i) = choose|bb: int, i: int| 0 <= bb < b + 1 && 0 <= i < kept(lv, kv[bb], single).len()
                    && (#[trigger] kept(lv, kv[bb], single)[i]).text == s;
                if bb < b {
                    assert(texts_upto(lv, kv, b as int, single).contains(s));
                    let w = choose|w: int| 0 <= w < v_b.len() && v_b[w] == s;
                    assert(interner@.take(v_b.len() as int)[w] == s);
                    assert(interner@[w] == s);
                } else {
                    assert(kc[i].text == s);
                }
            }
            let pj = Set::new(|s: Seq<char>| exists|i: int| 0 <= i < j && (#[trigger] kc[i]).text == s);
            assert(texts_upto(lv, kv, b + 1, single) =~= texts_upto(lv, kv, b as int, single).union(pj)) by {
                assert forall|s: Seq<char>| texts_upto(lv, kv, b + 1, single).contains(s) implies
                    texts_upto(lv, kv, b as int, single).union(pj).contains(s) by {
                    let (bb, i) = choose|bb: int, i: int| 0 <= bb < b + 1 && 0 <= i < kept(lv, kv[bb], single).len()
                        && (#[trigger] kept(lv, kv[bb], single)[i]).text == s;
                    if bb == b {
                        assert(kc[i].text == s);
                    }
                }
                assert forall|s: Seq<char>| texts_upto(lv, kv, b as int, single).union(pj).contains(s) implies
                    texts_upto(lv, kv, b + 1, single).contains(s) by {
                    if pj.contains(s) {
                        let i = choose|i: int| 0 <= i < j && (#[trigger] kc[i]).text == s;
                        assert(kept(lv, kv[b as int], single)[i].text == s);
                    } else {
                        let (bb, i) = choose|bb: int, i: int| 0 <= bb < b && 0 <= i < kept(lv, kv[bb], single).len()
                            && (#[trigger] kept(lv, kv[bb], single)[i]).text == s;
                        assert(kept(lv, kv[bb], single)[i].text == s);
                    }
                }
            }
            interner.lemma_distinct();
            lemma_tokens_for_grow(texts_upto(lv, kv, b as int, single), v_b, interner@);
            assert(tokens_for(texts_upto(lv, kv, b as int, single).union(pj), interner@)
                =~= tokens_for(texts_upto(lv, kv, b as int, single), interner@).union(tokens_for(pj, interner@)));
            assert(tokens@ =~= t0.union(tokens_for(texts_upto(lv, kv, b + 1, single), interner@)));
            assert(interner@.take(v0.len() as int) =~= v0) by {
                assert(interner@.take(v_b.len() as int).take(v0.len() as int) =~= interner@.take(v0.len() as int));
            }
            assert forall|bb: int| b + 1 <= bb < n implies #[trigger] buckets@[bb] == bv[bb] by {
            }
        }
        b += 1;
    }
    proof {
        assert(kv.take(n as int) =~= kv);
        assert(bv.take(n as int) =~= bv);
        assert(matcher@.dom() =~= dict_dom(lv, single));
        assert(kept_texts(lv, single) =~= texts_upto(lv, kv, n as int, single)) by {
            assert forall|s: Seq<char>| kept_texts(lv, single).contains(s) implies texts_upto(lv, kv, n as int, single).contains(s) by {
                let (k, i) = choose|k: Seq<char>, i: int| 0 <= i < kept(lv, k, single).len()
                    && (#[trigger] kept(lv, k, single)[i]).text == s;
                lemma_ranked_len(bucket(lv, k, single));
                assert(bucket(lv, k, single).len() > 0);
                assert(kv.contains(k));
                let bb = choose|bb: int| 0 <= bb < kv.len() && kv[bb] == k;
                assert(kept(lv, kv[bb], single)[i].text == s);
            }
            assert forall|s: Seq<char>| texts_upto(lv, kv, n as int, single).contains(s) implies kept_texts(lv, single).contains(s) by {
                let (bb, i) = choose|bb: int, i: int| 0 <= bb < n && 0 <= i < kept(lv, kv[bb], single).len()
                    && (#[trigger] kept(lv, kv[bb], single)[i]).text == s;
                assert(kept(lv, kv[bb], single)[i].text == s);
            }
        }
    }
}

/// The nonempty strings among `parts`.
pub open spec fn nonempty_set(parts: Seq<Seq<char>>) -> Set<Seq<char>>
    decreases parts.len(),
{
    if parts.len() == 0 {
        Set::empty()
    } else if parts.last().len() > 0 {
        nonempty_set(parts.drop_last()).insert(parts.last())
    } else {
        nonempty_set(parts.drop_last())
    }
}

/// The syllables of the dictionary keys.
pub open spec fn syl_set(lines: Seq<DictLineView>) -> Set<Seq<char>>
    decreases lines.len(),
{
    if lines.len() == 0 {
        Set::empty()
    } else {
        syl_set(lines.drop_last()).union(nonempty_set(split_spec(lines.last().key, ' ')))
    }
}

/// How many space-separated pieces the keys have in all.
pub open spec fn pieces_total(lines: Seq<DictLineView>) -> int
    decreases lines.len(),
{
    if lines.len() == 0 {
        0
    } else {
        pieces_total(lines.drop_last()) + split_spec(lines.last().key, ' ').len()
    }
}

/// The hanzi with a single-hanzi dictionary entry.
pub open spec fn read_dom(lines: Seq<DictLineView>) -> Set<char>
    decreases lines.len(),
{
    if lines.len() == 0 {
        Set::empty()
    } else if is_single(lines.last().text) {
        read_dom(lines.drop_last()).insert(lines.last().text[0])
    } else {
        read_dom(lines.drop_last())
    }
}

/// The readings of hanzi `c`: the concatenated keys of its entries.
pub open spec fn readings_of(lines: Seq<DictLineView>, c: char) -> Set<Seq<char>>
    decreases lines.len(),
{
    if lines.len() == 0 {
        Set::empty()
    } else if lines.last().text == seq![c] {
        readings_of(lines.drop_last(), c).insert(without_spaces(lines.last().key))
    } else {
        readings_of(lines.drop_last(), c)
    }
}

/// The syllable inventory and the readings of every hanzi.
pub fn dict_readings(lines: &Vec<DictLine>) -> (r: (SyllableSet, CharReadings))
    requires
        lines@.len() + 2 < 0xffff_ffffu32,
        pieces_total(dict_view(lines@)) < usize::MAX,
    ensures
        r.0.wf(),
        r.0@ == syl_set(dict_view(lines@)),
        r.1.wf(),
        r.1@.dom() == read_dom(dict_view(lines@)),
        forall|c: char| #[trigger] r.1@.contains_key(c) ==> readings_sorted(r.1@[c])
            && r.1@[c].to_set() == readings_of(dict_view(lines@), c),
{
    let ghost lv = dict_view(lines@);
    let mut syls = SyllableSet::new();
    let mut cp = CharReadings::new();
    let mut i: usize = 0;
    proof {
        assert(syls@ =~= syl_set(lv.take(0)));
        assert(cp@.dom() =~= read_dom(lv.take(0)));
    }
    while i < lines.len()
        invariant
            lv == dict_view(lines@),
            lines@.len() + 2 < 0xffff_ffffu32,
            pieces_total(lv) < usize::MAX,
            i <= lines@.len(),
            syls.wf(),
            syls@ == syl_set(lv.take(i as int)),
            syls@.len() <= pieces_total(lv.take(i as int)),
            cp.wf(),
            cp.n_chars() <= i,
            cp@.dom() == read_dom(lv.take(i as int)),
            forall|c: char| #[trigger] cp@.contains_key(c) ==> cp@[c].to_set() == readings_of(lv.take(i as int), c),
        decreases lines@.len() - i,
    {
        let line = &lines[i];
        let ghost li = lv[i as int];
        proof {
            assert(lv.take(i + 1).drop_last() =~= lv.take(i as int));
            assert(lv.take(i + 1).last() == li);
            lemma_pieces_total_le(lv, i as int + 1);
        }
        let pieces = split_char(line.key.as_str(), ' ');
        let ghost ps = split_spec(li.key, ' ');
        let ghost s0 = syls@;
        let mut j: usize = 0;
        proof {
            assert(ps.take(0) =~= Seq::<Seq<char>>::empty());
            assert(s0.union(nonempty_set(ps.take(0))) =~= s0);
        }
        while j < pieces.len()
            invariant
                pieces@.len() == ps.len(),
                forall|t: int| 0 <= t < pieces@.len() ==> #[trigger] pieces@[t]@ == ps[t],
                j <= pieces@.len(),
                syls.wf(),
                syls@ == s0.union(nonempty_set(ps.take(j as int))),
                syls@.len() <= s0.len() + j,
                s0.len() + ps.len() <= pieces_total(lv),
                pieces_total(lv) < usize::MAX,
            decreases pieces@.len() - j,
        {
            let ghost sb = syls@;
            syls.add(pieces[j].as_str());
            proof {
                assert(ps.take(j + 1).drop_last() =~= ps.take(j as int));
                assert(ps.take(j + 1).last() == ps[j as int]);
                assert(syls@ =~= s0.union(nonempty_set(ps.take(j + 1))));
            }
            j += 1;
        }
        proof {
            assert(ps.take(j as int) =~= ps);
            assert(syls@ =~= syl_set(lv.take(i + 1)));
        }
        let chars = crate::text::to_chars(line.text.as_str());
        if chars.len() == 1 {
            let concat = without_spaces_exec(line.key.as_str());
            let ghost cp0 = cp@;
            cp.add(chars[0], concat.as_str());
            proof {
                assert(li.text == seq![chars@[0]]);
                assert(cp@.dom() =~= read_dom(lv.take(i + 1)));
                assert forall|c: char| #[trigger] cp@.contains_key(c) implies cp@[c].to_set() == readings_of(lv.take(i + 1), c) by {
                    if c == chars@[0] {
                        if cp0.contains_key(c) {
                            if cp0[c].contains(concat@) {
                                assert(readings_of(lv.take(i as int), c).contains(concat@));
                                assert(cp0[c].to_set().insert(concat@) =~= cp0[c].to_set());
                            } else {
                                cp0[c].lemma_push_to_set_commute(concat@);
                            }
                        } else {
                            assert(!read_dom(lv.take(i as int)).contains(c));
                            lemma_readings_of_dom(lv.take(i as int), c);
                            Seq::<Seq<char>>::empty().lemma_push_to_set_commute(concat@);
                            assert(Seq::<Seq<char>>::empty().push(concat@) =~= seq![concat@]);
                            assert(Seq::<Seq<char>>::empty().to_set() =~= Set::<Seq<char>>::empty());
                        }
                    } else {
                        assert(cp@[c] == cp0[c]);
                    }
                }
            }
        } else {
            proof {
                assert(cp@.dom() =~= read_dom(lv.take(i + 1)));
                assert forall|c: char| #[trigger] cp@.contains_key(c) implies cp@[c].to_set() == readings_of(lv.take(i + 1), c) by {
                    if li.text == seq![c] {
                        assert(chars@.len() == 1);
                    }
                }
            }
        }
        i += 1;
    }
    let ghost pre = cp@;
    cp.sort_readings();
    proof {
        assert(lv.take(i as int) =~= lv);
        assert forall|c: char| #[trigger] cp@.contains_key(c) implies readings_sorted(cp@[c])
            && cp@[c].to_set() == readings_of(lv, c) by {
            assert(pre.contains_key(c));
        }
    }
    (syls, cp)
}

pub proof fn lemma_pieces_total_le(lines: Seq<DictLineView>, n: int)
    requires
        0 <= n <= lines.len(),
    ensures
        pieces_total(lines.take(n)) <= pieces_total(lines),
    decreases lines.len() - n,
{
    if n < lines.len() {
        assert(lines.take(n + 1).drop_last() =~= lines.take(n));
        lemma_pieces_total_le(lines, n + 1);
    } else {
        assert(lines.take(n) =~= lines);
    }
}

/// A hanzi without a single-hanzi entry has no reading.
pub proof fn lemma_readings_of_dom(lines: Seq<DictLineView>, c: char)
    requires
        !read_dom(lines).contains(c),
    ensures
        readings_of(lines, c) == Set::<Seq<char>>::empty(),
    decreases lines.len(),
{
    if lines.len() > 0 {
        lemma_readings_of_dom(lines.drop_last(), c);
        if lines.last().text == seq![c] {
            assert(is_single(lines.last().text));
            assert(lines.last().text[0] == c);
        }
    }
}

/// What the dictionary gives the lattice and the personal layer.
pub struct DictTables {
    pub char_matcher: Matcher,
    pub word_matcher: Matcher,
    pub syllables: SyllableSet,
    pub dict_entries: usize,
    /// Tokens that already have a lattice arc via the dictionary.
    pub dict_tokens: TokenSet,
    /// Readings of each hanzi, longest first.
    pub char_pinyin: CharReadings,
}

/// Build the dictionary tables from its lines (weights read): single hanzi
/// and words go to separate matchers under their concatenated key, each
/// key keeping its best candidates (16 hanzi, 8 words) ranked by weight,
/// then text, both descending; each kept text is interned and its id
/// marked as a dictionary token. The syllable inventory comes from every
/// key, and every single-hanzi entry gives its hanzi a reading.
pub fn build_dict(lines: &Vec<DictLine>, interner: &mut Interner) -> (t: DictTables)
    requires
        old(interner).wf(),
        old(interner)@.len() + lines@.len() + 2 < 0xffff_ffffu32,
        forall|i: int| 0 <= i < lines@.len() ==> is_ascii_seq(#[trigger] lines@[i].key@),
        pieces_total(dict_view(lines@)) < usize::MAX,
    ensures
        final(interner).wf(),
        old(interner)@.len() <= final(interner)@.len() <= old(interner)@.len() + lines@.len(),
        final(interner)@.take(old(interner)@.len() as int) == old(interner)@,
        t.char_matcher.wf(),
        t.word_matcher.wf(),
        t.char_matcher@.dom() == dict_dom(dict_view(lines@), true),
        t.word_matcher@.dom() == dict_dom(dict_view(lines@), false),
        forall|k: Seq<char>| #[trigger] t.char_matcher@.contains_key(k) ==> entries_match(
            t.char_matcher@[k],
            kept(dict_view(lines@), k, true),
            final(interner)@,
        ),
        forall|k: Seq<char>| #[trigger] t.word_matcher@.contains_key(k) ==> entries_match(
            t.word_matcher@[k],
            kept(dict_view(lines@), k, false),
            final(interner)@,
        ),
        forall|s: Seq<char>| #[trigger] kept_texts(dict_view(lines@), true).contains(s)
            || kept_texts(dict_view(lines@), false).contains(s) ==> final(interner)@.contains(s),
        only_from(
            final(interner)@,
            old(interner)@.len() as int,
            kept_texts(dict_view(lines@), true).union(kept_texts(dict_view(lines@), false)),
        ),
        t.dict_tokens@ == tokens_for(
            kept_texts(dict_view(lines@), true).union(kept_texts(dict_view(lines@), false)),
            final(interner)@,
        ),
        t.syllables.wf(),
        t.syllables@ == syl_set(dict_view(lines@)),
        t.dict_entries == lines@.len(),
        t.char_pinyin.wf(),
        t.char_pinyin@.dom() == read_dom(dict_view(lines@)),
        forall|c: char| #[trigger] t.char_pinyin@.contains_key(c) ==> readings_sorted(t.char_pinyin@[c])
            && t.char_pinyin@[c].to_set() == readings_of(dict_view(lines@), c),
{
    let ghost lv = dict_view(lines@);
    let ghost v0 = interner@;
    let (syllables, char_pinyin) = dict_readings(lines);
    let (char_keys, char_buckets) = collect_buckets(lines, true);
    let (word_keys, word_buckets) = collect_buckets(lines, false);
    proof {
        lemma_class_count(lv);
    }
    let mut char_matcher = Matcher::new();
    let mut word_matcher = Matcher::new();
    let mut dict_tokens = TokenSet::new();
    fill_matcher(&char_keys, char_buckets, Ghost(lv), true, interner, &mut char_matcher, &mut dict_tokens);
    let ghost v_mid = interner@;
    let ghost tok_mid = dict_tokens@;
    fill_matcher(&word_keys, word_buckets, Ghost(lv), false, interner, &mut word_matcher, &mut dict_tokens);
    proof {
        let kc = kept_texts(lv, true);
        let kw = kept_texts(lv, false);
        interner.lemma_distinct();
        assert forall|k: Seq<char>| #[trigger] char_matcher@.contains_key(k) implies entries_match(
            char_matcher@[k], kept(lv, k, true), interner@) by {
            lemma_entries_grow(char_matcher@[k], kept(lv, k, true), v_mid, interner@);
        }
        assert forall|s: Seq<char>| #[trigger] kc.contains(s) || kw.contains(s) implies interner@.contains(s) by {
            if kc.contains(s) {
                let w = choose|w: int| 0 <= w < v_mid.len() && v_mid[w] == s;
                assert(interner@.take(v_mid.len() as int)[w] == s);
                assert(interner@[w] == s);
            }
        }
        lemma_tokens_for_grow(kc, v_mid, interner@);
        assert(Set::<u32>::empty().union(tokens_for(kc, v_mid)) =~= tokens_for(kc, v_mid));
        assert forall|q: int| v0.len() <= q < interner@.len()
            implies kc.union(kw).contains(#[trigger] interner@[q]) by {
            if q < v_mid.len() {
                assert(interner@.take(v_mid.len() as int)[q] == v_mid[q]);
                assert(kc.contains(v_mid[q]));
            } else {
                assert(kw.contains(interner@[q]));
            }
        }
        assert(tokens_for(kc.union(kw), interner@) =~= tokens_for(kc, interner@).union(tokens_for(kw, interner@)));
        assert(interner@.take(v0.len() as int) =~= v0) by {
            assert(interner@.take(v_mid.len() as int).take(v0.len() as int) =~= interner@.take(v0.len() as int));
        }
    }
    DictTables {
        char_matcher: char_matcher,
        word_matcher: word_matcher,
        syllables: syllables,
        dict_entries: lines.len(),
        dict_tokens: dict_tokens,
        char_pinyin: char_pinyin,
    }
}

/// Whether `m` occurs in `s` at `i`.
pub open spec fn occurs_in(s: Seq<char>, m: Seq<char>, i: int) -> bool {
    0 <= i && i + m.len() <= s.len() && s.subrange(i, i + m.len()) == m
}

/// The first position from `from` where `m` occurs in `s`, or -1.
pub open spec fn find_from(s: Seq<char>, m: Seq<char>, from: int) -> int
    decreases s.len() + 1 - from,
{
    if from < 0 || from + m.len() > s.len() {
        -1
    } else if occurs_in(s, m, from) {
        from
    } else {
        find_from(s, m, from + 1)
    }
}

/// The text after the first `m` in `s`, up to the next `m` (the second
/// piece of `s.split(m)`); none if `m` does not occur.
pub open spec fn piece_after(s: Seq<char>, m: Seq<char>) -> Option<Seq<char>> {
    let i = find_from(s, m, 0);
    if i < 0 {
        None
    } else {
        let rest = s.skip(i + m.len());
        let j = find_from(rest, m, 0);
        if j < 0 {
            Some(rest)
        } else {
            Some(rest.take(j))
        }
    }
}

/// A header line: it starts with `#`.
pub open spec fn is_header(l: Seq<char>) -> bool {
    l.len() > 0 && l[0] == '#'
}

/// The value for marker `m` in the header lines from `i` on (the leading
/// run of `#` lines): the piece after `m` in the last header line that
/// holds `m`, else `acc`.
pub open spec fn header_from(lines: Seq<Seq<char>>, m: Seq<char>, i: int, acc: Option<Seq<char>>) -> Option<Seq<char>>
    decreases lines.len() - i,
{
    if i < 0 || i >= lines.len() || !is_header(lines[i]) {
        acc
    } else {
        header_from(lines, m, i + 1, match piece_after(lines[i], m) {
            Some(p) => Some(p),
            None => acc,
        })
    }
}

pub proof fn lemma_find_from_bounds(s: Seq<char>, m: Seq<char>, from: int)
    ensures
        find_from(s, m, from) == -1 || (from <= find_from(s, m, from) && occurs_in(s, m, find_from(s, m, from))),
    decreases s.len() + 1 - from,
{
    if !(from < 0 || from + m.len() > s.len()) && !occurs_in(s, m, from) {
        lemma_find_from_bounds(s, m, from + 1);
    }
}

/// The first position where `m` occurs in `s`.
fn find_sub(s: &Vec<char>, m: &Vec<char>) -> (r: Option<usize>)
    requires
        m@.len() > 0,
    ensures
        match r {
            Some(i) => find_from(s@, m@, 0) == i as int,
            None => find_from(s@, m@, 0) == -1,
        },
{
    if m.len() > s.len() {
        return None;
    }
    let mut i: usize = 0;
    let last = s.len() - m.len();
    while i <= last
        invariant
            m@.len() <= s@.len() <= usize::MAX,
            m@.len() > 0,
            last == s@.len() - m@.len(),
            i <= last + 1,
            find_from(s@, m@, 0) == find_from(s@, m@, i as int),
        decreases last + 1 - i,
    {
        let mut k: usize = 0;
        let mut ok = true;
        while k < m.len()
            invariant
                i + m@.len() <= s@.len() <= usize::MAX,
                k <= m@.len(),
                ok == forall|t: int| 0 <= t < k ==> s@[i + t] == m@[t],
            decreases m@.len() - k,
        {
            assert(i + k < s@.len());
            if s[i + k] != m[k] {
                ok = false;
            }
            k += 1;
        }
        proof {
            if ok {
                assert(s@.subrange(i as int, i + m@.len()) =~= m@);
            } else {
                let t = choose|t: int| 0 <= t < m@.len() && s@[i + t] != m@[t];
                assert(s@.subrange(i as int, i + m@.len())[t] != m@[t]);
            }
        }
        if ok {
            return Some(i);
        }
        i += 1;
    }
    None
}

/// The header value for marker `m` in ngram.tsv: see `header_from`.
pub fn header_value(text: &str, m: &str) -> (r: Option<String>)
    requires
        lines_spec(text@).len() < usize::MAX,
        m@.len() > 0,
    ensures
        match (r, header_from(lines_spec(text@), m@, 0, None)) {
            (Some(v), Some(w)) => v@ == w,
            (None, None) => true,
            _ => false,
        },
{
    let lines = lines_of(text);
    let ghost ls = lines_spec(text@);
    let mc = crate::text::to_chars(m);
    let mut acc: Option<String> = None;
    let mut i: usize = 0;
    while i < lines.len()
        invariant
            ls == lines_spec(text@),
            mc@ == m@,
            m@.len() > 0,
            lines@.len() == ls.len(),
            forall|k: int| 0 <= k < lines@.len() ==> #[trigger] lines@[k]@ == ls[k],
            i <= lines@.len(),
            header_from(ls, m@, 0, None) == header_from(ls, m@, i as int, crate::tokenize::opt_string_view(acc)),
        decreases lines@.len() - i,
    {
        let lc = crate::text::to_chars(lines[i].as_str());
        if lc.len() == 0 || lc[0] != '#' {
            return acc;
        }
        match find_sub(&lc, &mc) {
            Some(a) => {
                proof {
                    lemma_find_from_bounds(lc@, mc@, 0);
                }
                let start = a + mc.len();
                let rest = crate::text::string_of(lc.as_slice(), start, lc.len());
                let rc = crate::text::to_chars(rest.as_str());
                proof {
                    assert(rc@ =~= lc@.skip(start as int));
                }
                match find_sub(&rc, &mc) {
                    Some(b) => {
                        proof {
                            lemma_find_from_bounds(rc@, mc@, 0);
                        }
                        let piece = crate::text::string_of(rc.as_slice(), 0, b);
                        assert(piece@ =~= rc@.take(b as int));
                        acc = Some(piece);
                    },
                    None => {
                        acc = Some(rest);
                    },
                }
            },
            None => {},
        }
        i += 1;
    }
    acc
}

/// Token ids of the first `order` words of an n-gram (a missing word
/// counts as the empty word), interned in order.
pub open spec fn ngram_fold(v: Seq<Seq<char>>, words: Seq<Seq<char>>, k: int) -> (Seq<Seq<char>>, Seq<u32>)
    decreases k,
{
    if k <= 0 {
        (v, seq![])
    } else {
        let (v1, ids) = ngram_fold(v, words, k - 1);
        let w = if k - 1 < words.len() { words[k - 1] } else { seq![] };
        let (v2, id) = intern_spec(v1, w);
        (v2, ids.push(id as u32))
    }
}

/// Intern the first `order` words of an n-gram's token column.
pub fn ngram_ids(interner: &mut Interner, tokens: &str, order: usize) -> (r: Vec<u32>)
    requires
        old(interner).wf(),
        old(interner)@.len() + order < 0xffff_ffffu32,
    ensures
        final(interner).wf(),
        (final(interner)@, r@) == ngram_fold(old(interner)@, split_spec(tokens@, ' '), order as int),
{
    let words = split_char(tokens, ' ');
    let ghost wv = split_spec(tokens@, ' ');
    let ghost v0 = interner@;
    let mut ids: Vec<u32> = Vec::new();
    let mut k: usize = 0;
    while k < order
        invariant
            wv == split_spec(tokens@, ' '),
            v0 == old(interner)@,
            words@.len() == wv.len(),
            forall|t: int| 0 <= t < words@.len() ==> #[trigger] words@[t]@ == wv[t],
            k <= order,
            interner.wf(),
            interner@.len() <= v0.len() + k,
            v0.len() + order < 0xffff_ffffu32,
            (interner@, ids@) == ngram_fold(v0, wv, k as int),
        decreases order - k,
    {
        let id = if k < words.len() {
            interner.intern(words[k].as_str())
        } else {
            interner.intern("")
        };
        proof {
            reveal_strlit("");
            assert(""@ =~= Seq::<char>::empty());
        }
        ids.push(id);
        k += 1;
    }
    ids
}

/// The lattice side of the artifacts: the dictionary and English
/// matchers with the letter tokens, and what the personal layer needs.
pub struct Lexicon {
    pub builder: LatticeBuilder,
    pub syllables: SyllableSet,
    pub dict_tokens: TokenSet,
    pub char_pinyin: CharReadings,
    pub dict_entries: usize,
    pub english_words: usize,
}

impl Lexicon {
    /// Build the dictionary tables, then the English list, then intern the
    /// letters a to z, in that order, into `interner`: the token table
    /// gains the kept dictionary texts (in an order left open), then what
    /// the English list interns, then the letters.
    pub fn build(interner: &mut Interner, dict: &Vec<DictLine>, english: &str) -> (r: Lexicon)
        requires
            old(interner).wf(),
            old(interner)@.len() + dict@.len() + lines_spec(english@).len() + 30 < 0xffff_ffffu32,
            forall|i: int| 0 <= i < dict@.len() ==> is_ascii_seq(#[trigger] dict@[i].key@),
            pieces_total(dict_view(dict@)) < usize::MAX,
        ensures
            final(interner).wf(),
            old(interner)@.len() <= final(interner)@.len(),
            final(interner)@.take(old(interner)@.len() as int) == old(interner)@,
            r.builder.wf(),
            r.builder.char_matcher@.dom() == dict_dom(dict_view(dict@), true),
            r.builder.word_matcher@.dom() == dict_dom(dict_view(dict@), false),
            forall|k: Seq<char>| #[trigger] r.builder.char_matcher@.contains_key(k) ==> entries_match(
                r.builder.char_matcher@[k],
                kept(dict_view(dict@), k, true),
                final(interner)@,
            ),
            forall|k: Seq<char>| #[trigger] r.builder.word_matcher@.contains_key(k) ==> entries_match(
                r.builder.word_matcher@[k],
                kept(dict_view(dict@), k, false),
                final(interner)@,
            ),
            r.dict_tokens@ == tokens_for(
                kept_texts(dict_view(dict@), true).union(kept_texts(dict_view(dict@), false)),
                final(interner)@,
            ),
            exists|vd: Seq<Seq<char>>| #[trigger] vd.take(old(interner)@.len() as int) == old(interner)@ && {
                let (v2, m, n) = english_fold(
                    lines_spec(english@),
                    0,
                    vd,
                    Map::<Seq<char>, Seq<EntryView>>::empty(),
                    0,
                );
                &&& old(interner)@.len() <= vd.len()
                &&& only_from(
                    vd,
                    old(interner)@.len() as int,
                    kept_texts(dict_view(dict@), true).union(kept_texts(dict_view(dict@), false)),
                )
                &&& forall|s: Seq<char>| #[trigger] kept_texts(dict_view(dict@), true).contains(s)
                    || kept_texts(dict_view(dict@), false).contains(s) ==> vd.contains(s)
                &&& final(interner)@ == letters_fold(v2, 26)
                &&& r.builder.en_matcher@ == m
                &&& r.english_words == n
            },
            forall|i: int| 0 <= i < 26 ==> final(interner)@.contains(#[trigger] letter(i))
                && r.builder.letter_tokens@[i] == id_of(final(interner)@, letter(i)),
            r.syllables.wf(),
            r.syllables@ == syl_set(dict_view(dict@)),
            r.char_pinyin.wf(),
            r.char_pinyin@.dom() == read_dom(dict_view(dict@)),
            forall|c: char| #[trigger] r.char_pinyin@.contains_key(c) ==> readings_sorted(r.char_pinyin@[c])
                && r.char_pinyin@[c].to_set() == readings_of(dict_view(dict@), c),
            r.dict_entries == dict@.len(),
    {
        let ghost lv = dict_view(dict@);
        let ghost v0 = interner@;
        let t = build_dict(dict, interner);
        let ghost v1 = interner@;
        let (en, english_words) = parse_english(english, interner);
        let ghost v2 = interner@;
        let letters = letter_tokens(interner);
        proof {
            let v3 = interner@;
            interner.lemma_distinct();
            assert(v3.take(v1.len() as int) =~= v1) by {
                assert(v3.take(v2.len() as int).take(v1.len() as int) =~= v3.take(v1.len() as int));
            }
            assert(v3.take(v0.len() as int) =~= v0) by {
                assert(v3.take(v1.len() as int).take(v0.len() as int) =~= v3.take(v0.len() as int));
            }
            assert forall|k: Seq<char>| #[trigger] t.char_matcher@.contains_key(k) implies entries_match(
                t.char_matcher@[k], kept(lv, k, true), v3) by {
                lemma_entries_grow(t.char_matcher@[k], kept(lv, k, true), v1, v3);
            }
            assert forall|k: Seq<char>| #[trigger] t.word_matcher@.contains_key(k) implies entries_match(
                t.word_matcher@[k], kept(lv, k, false), v3) by {
                lemma_entries_grow(t.word_matcher@[k], kept(lv, k, false), v1, v3);
            }
            lemma_tokens_for_grow(kept_texts(lv, true).union(kept_texts(lv, false)), v1, v3);
            assert(v3.take(v2.len() as int) =~= v2);
            assert(v1.take(v0.len() as int) == v0);
            assert(v3 == letters_fold(v2, 26));
        }
        Lexicon {
            builder: LatticeBuilder {
                char_matcher: t.char_matcher,
                word_matcher: t.word_matcher,
                en_matcher: en,
                letter_tokens: letters,
            },
            syllables: t.syllables,
            dict_tokens: t.dict_tokens,
            char_pinyin: t.char_pinyin,
            dict_entries: t.dict_entries,
            english_words: english_words,
        }
    }
}

} // verus!
