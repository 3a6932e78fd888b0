//! The cold-start file of personal memory (`personal.tsv`): tab-separated
//! lines `kind a b`, where kind is `lex` (word, count), `case` (word,
//! surface), `zhword` (word, spaced pinyin) or `1`/`2`/`3` (space-separated
//! n-gram, count). Empty lines and `#` comments are skipped; a data line
//! with fewer than three columns, or of another kind, is an error. Counts
//! are numbers that the caller parses.

use vstd::prelude::*;

use crate::interner::Interner;
use crate::personal::{ext_after, word_id, PersonalVocab};
use crate::readings::strings_view;
use crate::text::{is_data_line_spec, split_char, split_spec, str_eq};

verus! {

broadcast use vstd::string::group_string_axioms;

/// One line of the file, classified.
pub enum PersonalLine {
    /// Empty or a comment.
    Skip,
    /// Fewer than three columns.
    BadColumns,
    Lex { word: String, count: String },
    Case { word: String, surface: String },
    ZhWord { word: String, key: String },
    /// An n-gram of the given order (1 to 3): its words, split at spaces.
    Ngram { order: usize, words: Vec<String>, count: String },
    Unknown { kind: String },
}

pub enum PersonalLineView {
    Skip,
    BadColumns,
    Lex { word: Seq<char>, count: Seq<char> },
    Case { word: Seq<char>, surface: Seq<char> },
    ZhWord { word: Seq<char>, key: Seq<char> },
    Ngram { order: int, words: Seq<Seq<char>>, count: Seq<char> },
    Unknown { kind: Seq<char> },
}

impl View for PersonalLine {
    type V = PersonalLineView;

    open spec fn view(&self) -> PersonalLineView {
        match self {
            PersonalLine::Skip => PersonalLineView::Skip,
            PersonalLine::BadColumns => PersonalLineView::BadColumns,
            PersonalLine::Lex { word, count } => PersonalLineView::Lex { word: word@, count: count@ },
            PersonalLine::Case { word, surface } => PersonalLineView::Case { word: word@, surface: surface@ },
            PersonalLine::ZhWord { word, key } => PersonalLineView::ZhWord { word: word@, key: key@ },
            PersonalLine::Ngram { order, words, count } => PersonalLineView::Ngram {
                order: *order as int,
                words: strings_view(words@),
                count: count@,
            },
            PersonalLine::Unknown { kind } => PersonalLineView::Unknown { kind: kind@ },
        }
    }
}

/// How a line of the file reads.
pub open spec fn classify_spec(line: Seq<char>) -> PersonalLineView {
    let cols = split_spec(line, '\t');
    if !is_data_line_spec(line) {
        PersonalLineView::Skip
    } else if cols.len() < 3 {
        PersonalLineView::BadColumns
    } else {
        let (kind, a, b) = (cols[0], cols[1], cols[2]);
        if kind == seq!['l', 'e', 'x'] {
            PersonalLineView::Lex { word: a, count: b }
        } else if kind == seq!['c', 'a', 's', 'e'] {
            PersonalLineView::Case { word: a, surface: b }
        } else if kind == seq!['z', 'h', 'w', 'o', 'r', 'd'] {
            PersonalLineView::ZhWord { word: a, key: b }
        } else if kind == seq!['1'] {
            PersonalLineView::Ngram { order: 1, words: split_spec(a, ' '), count: b }
        } else if kind == seq!['2'] {
            PersonalLineView::Ngram { order: 2, words: split_spec(a, ' '), count: b }
        } else if kind == seq!['3'] {
            PersonalLineView::Ngram { order: 3, words: split_spec(a, ' '), count: b }
        } else {
            PersonalLineView::Unknown { kind: kind }
        }
    }
}

/// An n-gram line's order is the number written in its kind column, and
/// its words are the space-separated second column: a kind of `1`, `2` or
/// `3` on a data line with three columns always reads as that order.
pub proof fn law_ngram_order(line: Seq<char>)
    ensures
        classify_spec(line) matches PersonalLineView::Ngram { order, words, .. } ==> {
            let cols = split_spec(line, '\t');
            &&& cols.len() >= 3
            &&& (order == 1 && cols[0] == seq!['1']) || (order == 2 && cols[0] == seq!['2']) || (order == 3
                && cols[0] == seq!['3'])
            &&& words == split_spec(cols[1], ' ')
        },
        is_data_line_spec(line) && split_spec(line, '\t').len() >= 3 ==> {
            let kind = split_spec(line, '\t')[0];
            &&& kind == seq!['1'] ==> (classify_spec(line) matches PersonalLineView::Ngram { order, .. } && order == 1)
            &&& kind == seq!['2'] ==> (classify_spec(line) matches PersonalLineView::Ngram { order, .. } && order == 2)
            &&& kind == seq!['3'] ==> (classify_spec(line) matches PersonalLineView::Ngram { order, .. } && order == 3)
        },
{
    let cols = split_spec(line, '\t');
    if cols.len() >= 3 {
        let kind = cols[0];
        if kind.len() == 1 {
            assert(kind != seq!['l', 'e', 'x']);
            assert(kind != seq!['c', 'a', 's', 'e']);
            assert(kind != seq!['z', 'h', 'w', 'o', 'r', 'd']);
            if kind == seq!['2'] || kind == seq!['3'] {
                assert(kind[0] != '1');
                assert(kind != seq!['1']);
            }
            if kind == seq!['3'] {
                assert(kind[0] != '2');
                assert(kind != seq!['2']);
            }
        }
    }
}

fn is_word(s: &String, w: &str) -> (r: bool)
    ensures
        r == (s@ == w@),
{
    str_eq(s.as_str(), w)
}

/// Classify one line of the file.
pub fn classify_line(line: &str) -> (r: PersonalLine)
    ensures
        r@ == classify_spec(line@),
{
    let chars = crate::text::to_chars(line);
    if chars.len() == 0 || chars[0] == '#' {
        return PersonalLine::Skip;
    }
    let cols = split_char(line, '\t');
    if cols.len() < 3 {
        return PersonalLine::BadColumns;
    }
    let kind = &cols[0];
    let a = cols[1].clone();
    let b = cols[2].clone();
    proof {
        reveal_strlit("lex");
        reveal_strlit("case");
        reveal_strlit("zhword");
        reveal_strlit("1");
        reveal_strlit("2");
        reveal_strlit("3");
        assert("lex"@ =~= seq!['l', 'e', 'x']);
        assert("case"@ =~= seq!['c', 'a', 's', 'e']);
        assert("zhword"@ =~= seq!['z', 'h', 'w', 'o', 'r', 'd']);
        assert("1"@ =~= seq!['1']);
        assert("2"@ =~= seq!['2']);
        assert("3"@ =~= seq!['3']);
        assert(is_data_line_spec(line@));
        assert(cols@[0]@ == split_spec(line@, '\t')[0]);
        assert(cols@[1]@ == split_spec(line@, '\t')[1]);
        assert(cols@[2]@ == split_spec(line@, '\t')[2]);
    }
    if is_word(kind, "lex") {
        PersonalLine::Lex { word: a, count: b }
    } else if is_word(kind, "case") {
        PersonalLine::Case { word: a, surface: b }
    } else if is_word(kind, "zhword") {
        PersonalLine::ZhWord { word: a, key: b }
    } else if is_word(kind, "1") || is_word(kind, "2") || is_word(kind, "3") {
        let order: usize = if is_word(kind, "1") {
            1
        } else if is_word(kind, "2") {
            2
        } else {
            3
        };
        let words = split_char(a.as_str(), ' ');
        proof {
            assert(strings_view(words@) =~= split_spec(a@, ' '));
        }
        PersonalLine::Ngram { order: order, words: words, count: b }
    } else {
        PersonalLine::Unknown { kind: kind.clone() }
    }
}

/// Token ids of an n-gram's words, resolved in order: as many words as
/// the order asks for are resolved (fewer if the line has fewer), and the
/// n-gram is refused when it has fewer words than its order.
pub open spec fn ngram_ids(
    general: Seq<Seq<char>>,
    base: u32,
    ext: Seq<Seq<char>>,
    words: Seq<Seq<char>>,
) -> (Seq<Seq<char>>, Seq<u32>)
    decreases words.len(),
{
    if words.len() == 0 {
        (ext, seq![])
    } else {
        let (e1, ids) = ngram_ids(general, base, ext, words.drop_last());
        let e2 = ext_after(general, e1, words.last());
        (e2, ids.push(word_id(general, e2, base, words.last()) as u32))
    }
}

/// Resolve the first `order` words of an n-gram line to token ids; `None`
/// when the line has fewer words than that (the words it has are resolved
/// all the same).
pub fn ngram_tokens(
    vocab: &mut PersonalVocab,
    general: &Interner,
    words: &Vec<String>,
    order: usize,
) -> (r: Option<Vec<u32>>)
    requires
        old(vocab).wf(),
        general.wf(),
        general@.len() <= old(vocab).base(),
        old(vocab).base() + old(vocab).ext().len() + order < 0xffff_ffffu32,
    ensures
        final(vocab).wf(),
        final(vocab).base() == old(vocab).base(),
        ({
            let n = if words@.len() < order { words@.len() as int } else { order as int };
            let (e, ids) = ngram_ids(general@, old(vocab).base(), old(vocab).ext(), strings_view(words@).take(n));
            &&& final(vocab).ext() == e
            &&& (words@.len() >= order ==> (r matches Some(v) && v@ == ids))
        }),
        words@.len() < order <==> r is None,
{
    let n = if words.len() < order { words.len() } else { order };
    let ghost wv = strings_view(words@);
    let ghost base = vocab.base();
    let ghost ext0 = vocab.ext();
    let mut ids: Vec<u32> = Vec::new();
    let mut k: usize = 0;
    while k < n
        invariant
            vocab.wf(),
            general.wf(),
            general@.len() <= vocab.base(),
            vocab.base() == base,
            base + ext0.len() + order < 0xffff_ffffu32,
            n <= order,
            n <= words@.len(),
            wv == strings_view(words@),
            k <= n,
            vocab.ext().len() <= ext0.len() + k,
            (vocab.ext(), ids@) == ngram_ids(general@, base, ext0, wv.take(k as int)),
        decreases n - k,
    {
        let id = vocab.token(general, words[k].as_str());
        ids.push(id);
        proof {
            assert(wv.take(k + 1).drop_last() =~= wv.take(k as int));
            assert(wv.take(k + 1).last() == words@[k as int]@);
        }
        k += 1;
    }
    if words.len() < order {
        None
    } else {
        Some(ids)
    }
}

} // verus!
