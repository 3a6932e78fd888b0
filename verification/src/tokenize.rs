//! Tokenizing a committed text into LM sentences.
//!
//! Separators close a sentence. An ASCII run becomes one lowercase word
//! when its byte length is 2..=20. A hanzi run is cut by greedy longest
//! match: at each position the longest word of 2..=6 hanzi that the
//! personal layer knows (general vocabulary or seen before) is taken, else
//! a single hanzi. Every word resolves to a token id, numbering words past
//! the general vocabulary in order of first appearance.

use vstd::prelude::*;

use crate::decoder::byte_len;
use crate::interner::Interner;
use crate::personal::{
    align, align_from, ext_after, is_hanzi, is_hanzi_spec, known, lemma_units_len, parse_units,
    units_from, word_id, PersonalVocab, Unit, UnitView, units_view,
};
use crate::readings::{strings_view, CharReadings};
use crate::text::{ascii_lowercase, lower_seq, push_char, string_of};

verus! {

broadcast use vstd::string::group_string_axioms;

/// Longest word of a hanzi run that greedy matching tries.
pub const MAX_WORD: usize = 6;

/// An English word learned from a commit: its token, the casing the user
/// typed, and the lowercase form that keys its arc.
pub struct EnWord {
    pub tok: u32,
    pub surface: String,
    pub lower: String,
}

/// A Chinese word of two or more hanzi: its token, its text and, when the
/// commit could be aligned with its keys, its spaced pinyin.
pub struct ZhWord {
    pub tok: u32,
    pub word: String,
    pub key: Option<String>,
}

pub struct EnWordView {
    pub tok: u32,
    pub surface: Seq<char>,
    pub lower: Seq<char>,
}

pub struct ZhWordView {
    pub tok: u32,
    pub word: Seq<char>,
    pub key: Option<Seq<char>>,
}

/// What tokenizing a commit yields, in text order.
pub struct Tokenized {
    pub sentences: Vec<Vec<u32>>,
    pub en_words: Vec<EnWord>,
    pub zh_words: Vec<ZhWord>,
}

/// The tokenizer's state between units.
pub struct TokState {
    pub ext: Seq<Seq<char>>,
    pub sentences: Seq<Seq<u32>>,
    pub current: Seq<u32>,
    pub en: Seq<EnWordView>,
    pub zh: Seq<ZhWordView>,
}

pub open spec fn en_view(v: Seq<EnWord>) -> Seq<EnWordView> {
    v.map_values(|e: EnWord| EnWordView { tok: e.tok, surface: e.surface@, lower: e.lower@ })
}

pub open spec fn opt_string_view(o: Option<String>) -> Option<Seq<char>> {
    match o {
        Some(s) => Some(s@),
        None => None,
    }
}

pub open spec fn zh_view(v: Seq<ZhWord>) -> Seq<ZhWordView> {
    v.map_values(|z: ZhWord| ZhWordView { tok: z.tok, word: z.word@, key: opt_string_view(z.key) })
}

pub open spec fn sentences_view(v: Seq<Vec<u32>>) -> Seq<Seq<u32>> {
    v.map_values(|s: Vec<u32>| s@)
}

pub open spec fn opt_strings_view(o: Option<Vec<String>>) -> Option<Seq<Seq<char>>> {
    match o {
        Some(v) => Some(strings_view(v@)),
        None => None,
    }
}

/// Every sentence holds at least one token.
pub open spec fn all_nonempty(ss: Seq<Seq<u32>>) -> bool {
    forall|i: int| 0 <= i < ss.len() ==> (#[trigger] ss[i]).len() > 0
}

/// Parts joined with single spaces.
pub open spec fn join_spaced(parts: Seq<Seq<char>>) -> Seq<char>
    decreases parts.len(),
{
    if parts.len() == 0 {
        seq![]
    } else if parts.len() == 1 {
        parts[0]
    } else {
        join_spaced(parts.drop_last()) + seq![' '] + parts.last()
    }
}

/// The spaced pinyin of `n` units from `from`, when syllables are known.
pub open spec fn key_of(syls: Option<Seq<Seq<char>>>, from: int, n: int) -> Option<Seq<char>> {
    match syls {
        Some(s) => Some(join_spaced(s.subrange(from, from + n))),
        None => None,
    }
}

/// How many hanzi greedy matching can take at `j`.
pub open spec fn max_word(run: Seq<char>, j: int) -> int {
    if run.len() - j < MAX_WORD {
        run.len() - j
    } else {
        MAX_WORD as int
    }
}

/// Greedy longest match at `j`, trying lengths `l` down to 2: the first
/// known word, else a single hanzi.
pub open spec fn greedy_len(
    general: Seq<Seq<char>>,
    ext: Seq<Seq<char>>,
    run: Seq<char>,
    j: int,
    l: int,
) -> int
    decreases l,
{
    if l < 2 {
        1
    } else if known(general, ext, run.subrange(j, j + l)) {
        l
    } else {
        greedy_len(general, ext, run, j, l - 1)
    }
}

pub proof fn lemma_greedy_len(general: Seq<Seq<char>>, ext: Seq<Seq<char>>, run: Seq<char>, j: int, l: int)
    requires
        l >= 1,
    ensures
        1 <= greedy_len(general, ext, run, j, l) <= l,
    decreases l,
{
    if l >= 2 && !known(general, ext, run.subrange(j, j + l)) {
        lemma_greedy_len(general, ext, run, j, l - 1);
    }
}

/// Greedy matching takes the longest known word: a word of two or more
/// hanzi is taken only when known, and no longer one within reach is.
pub proof fn law_greedy_longest(general: Seq<Seq<char>>, ext: Seq<Seq<char>>, run: Seq<char>, j: int, l: int)
    requires
        l >= 1,
    ensures
        greedy_len(general, ext, run, j, l) >= 2 ==> known(
            general,
            ext,
            run.subrange(j, j + greedy_len(general, ext, run, j, l)),
        ),
        forall|m: int| greedy_len(general, ext, run, j, l) < m <= l && m >= 2
            ==> !known(general, ext, #[trigger] run.subrange(j, j + m)),
    decreases l,
{
    if l >= 2 && !known(general, ext, run.subrange(j, j + l)) {
        law_greedy_longest(general, ext, run, j, l - 1);
    }
}

/// The state after resolving word `w` and appending its token to the
/// current sentence.
pub open spec fn with_word(general: Seq<Seq<char>>, base: u32, st: TokState, w: Seq<char>) -> TokState {
    let e = ext_after(general, st.ext, w);
    TokState {
        ext: e,
        sentences: st.sentences,
        current: st.current.push(word_id(general, e, base, w) as u32),
        en: st.en,
        zh: st.zh,
    }
}

/// Greedy matching over the hanzi `run` from `j`; `start` is the unit
/// index where the run begins (to find its syllables).
pub open spec fn seg_run(
    general: Seq<Seq<char>>,
    base: u32,
    syls: Option<Seq<Seq<char>>>,
    run: Seq<char>,
    start: int,
    j: int,
    st: TokState,
) -> TokState
    decreases run.len() - j,
{
    if j < 0 || j >= run.len() {
        st
    } else {
        let taken = greedy_len(general, st.ext, run, j, max_word(run, j));
        let w = run.subrange(j, j + taken);
        let st1 = with_word(general, base, st, w);
        let st2 = if taken >= 2 {
            TokState {
                ext: st1.ext,
                sentences: st1.sentences,
                current: st1.current,
                en: st1.en,
                zh: st1.zh.push(
                    ZhWordView { tok: st1.current.last(), word: w, key: key_of(syls, start + j, taken) },
                ),
            }
        } else {
            st1
        };
        proof {
            lemma_greedy_len(general, st.ext, run, j, max_word(run, j));
        }
        seg_run(general, base, syls, run, start, j + taken, st2)
    }
}

/// The hanzi of the run of hanzi units starting at `i`.
pub open spec fn hanzi_run(units: Seq<UnitView>, i: int) -> Seq<char>
    decreases units.len() - i,
{
    if 0 <= i < units.len() {
        match units[i] {
            UnitView::Hanzi(c) => seq![c] + hanzi_run(units, i + 1),
            _ => seq![],
        }
    } else {
        seq![]
    }
}

pub proof fn lemma_hanzi_run_len(units: Seq<UnitView>, i: int)
    requires
        0 <= i <= units.len(),
    ensures
        i + hanzi_run(units, i).len() <= units.len(),
    decreases units.len() - i,
{
    if i < units.len() {
        lemma_hanzi_run_len(units, i + 1);
    }
}

/// Ends the current sentence, if it has any token.
pub open spec fn close_sentence(st: TokState) -> TokState {
    if st.current.len() > 0 {
        TokState {
            ext: st.ext,
            sentences: st.sentences.push(st.current),
            current: seq![],
            en: st.en,
            zh: st.zh,
        }
    } else {
        st
    }
}

/// Tokenizing units `i..`.
pub open spec fn tok_from(
    general: Seq<Seq<char>>,
    base: u32,
    syls: Option<Seq<Seq<char>>>,
    units: Seq<UnitView>,
    i: int,
    st: TokState,
) -> TokState
    decreases units.len() - i,
{
    if i < 0 || i >= units.len() {
        st
    } else {
        match units[i] {
            UnitView::Sep => tok_from(general, base, syls, units, i + 1, close_sentence(st)),
            UnitView::Ascii(s) => {
                let lw = lower_seq(s);
                let st2 = if 2 <= byte_len(lw) <= 20 {
                    let st1 = with_word(general, base, st, lw);
                    TokState {
                        ext: st1.ext,
                        sentences: st1.sentences,
                        current: st1.current,
                        en: st1.en.push(EnWordView { tok: st1.current.last(), surface: s, lower: lw }),
                        zh: st1.zh,
                    }
                } else {
                    st
                };
                tok_from(general, base, syls, units, i + 1, st2)
            },
            UnitView::Hanzi(c) => {
                let run = hanzi_run(units, i);
                proof {
                    assert(run == seq![c] + hanzi_run(units, i + 1));
                    lemma_hanzi_run_len(units, i);
                }
                tok_from(general, base, syls, units, i + run.len(), seg_run(general, base, syls, run, i, 0, st))
            },
        }
    }
}

pub open spec fn empty_state(ext: Seq<Seq<char>>) -> TokState {
    TokState { ext: ext, sentences: seq![], current: seq![], en: seq![], zh: seq![] }
}

/// The whole commit: every unit, then the last sentence closed.
pub open spec fn tokenize_spec(
    general: Seq<Seq<char>>,
    base: u32,
    ext: Seq<Seq<char>>,
    syls: Option<Seq<Seq<char>>>,
    units: Seq<UnitView>,
) -> TokState {
    close_sentence(tok_from(general, base, syls, units, 0, empty_state(ext)))
}

/// `parts[from..to]` joined with single spaces (`[..].join(" ")`).
pub fn join_spaced_exec(parts: &Vec<String>, from: usize, to: usize) -> (r: String)
    requires
        from <= to <= parts@.len(),
    ensures
        r@ == join_spaced(strings_view(parts@).subrange(from as int, to as int)),
{
    let ghost pv = strings_view(parts@);
    let mut r = String::new();
    let mut k: usize = from;
    assert(pv.subrange(from as int, from as int) =~= Seq::<Seq<char>>::empty());
    while k < to
        invariant
            pv == strings_view(parts@),
            from <= k <= to <= parts@.len(),
            r@ == join_spaced(pv.subrange(from as int, k as int)),
        decreases to - k,
    {
        let ghost before = r@;
        proof {
            assert(pv.subrange(from as int, k + 1).drop_last() =~= pv.subrange(from as int, k as int));
            assert(pv.subrange(from as int, k + 1).last() == parts@[k as int]@);
        }
        if k > from {
            push_char(&mut r, ' ');
        } else {
            assert(pv.subrange(from as int, k + 1) =~= seq![parts@[k as int]@]);
        }
        let chars = crate::text::to_chars(parts[k].as_str());
        let mut t: usize = 0;
        let ghost mid = r@;
        while t < chars.len()
            invariant
                chars@ == parts@[k as int]@,
                t <= chars@.len(),
                r@ == mid + chars@.take(t as int),
            decreases chars@.len() - t,
        {
            push_char(&mut r, chars[t]);
            assert(chars@.take(t + 1) =~= chars@.take(t as int).push(chars@[t as int]));
            t += 1;
        }
        assert(chars@.take(t as int) =~= chars@);
        proof {
            if k > from {
                assert(r@ =~= before + seq![' '] + parts@[k as int]@);
            } else {
                assert(r@ =~= parts@[k as int]@);
            }
        }
        k += 1;
    }
    r
}

/// The greedy match length at `j` of the hanzi `run`.
fn greedy(vocab: &PersonalVocab, general: &Interner, run: &Vec<char>, j: usize) -> (taken: usize)
    requires
        vocab.wf(),
        general.wf(),
        j < run@.len(),
    ensures
        taken == greedy_len(general@, vocab.ext(), run@, j as int, max_word(run@, j as int)),
        1 <= taken <= max_word(run@, j as int),
{
    let max_l: usize = if run.len() - j < MAX_WORD { run.len() - j } else { MAX_WORD };
    assert(max_l == max_word(run@, j as int));
    let mut l = max_l;
    proof {
        lemma_greedy_len(general@, vocab.ext(), run@, j as int, max_l as int);
    }
    while l >= 2
        invariant
            vocab.wf(),
            general.wf(),
            j < run@.len() <= usize::MAX,
            j + max_l <= run@.len(),
            max_l == max_word(run@, j as int),
            l <= max_l,
            greedy_len(general@, vocab.ext(), run@, j as int, max_l as int)
                == greedy_len(general@, vocab.ext(), run@, j as int, l as int),
        decreases l,
    {
        let cand = string_of(run.as_slice(), j, j + l);
        if vocab.known_word(general, cand.as_str()) {
            return l;
        }
        l -= 1;
    }
    1
}

/// Greedy matching over one hanzi run: tokens go to the current sentence,
/// words of two or more hanzi to `zh`.
fn seg_run_exec(
    vocab: &mut PersonalVocab,
    general: &Interner,
    syllables: &Option<Vec<String>>,
    run: &Vec<char>,
    start: usize,
    current: &mut Vec<u32>,
    zh: &mut Vec<ZhWord>,
    Ghost(sentences): Ghost<Seq<Seq<u32>>>,
    Ghost(en): Ghost<Seq<EnWordView>>,
)
    requires
        old(vocab).wf(),
        general.wf(),
        general@.len() <= old(vocab).base(),
        old(vocab).base() + old(vocab).ext().len() + run@.len() < 0xffff_ffffu32,
        syllables matches Some(v) ==> start + run@.len() <= v@.len(),
    ensures
        final(vocab).wf(),
        final(vocab).base() == old(vocab).base(),
        final(vocab).ext().len() <= old(vocab).ext().len() + run@.len(),
        ({
            let st = seg_run(
                general@,
                old(vocab).base(),
                opt_strings_view(*syllables),
                run@,
                start as int,
                0,
                TokState {
                    ext: old(vocab).ext(),
                    sentences: sentences,
                    current: old(current)@,
                    en: en,
                    zh: zh_view(old(zh)@),
                },
            );
            &&& final(vocab).ext() == st.ext
            &&& final(current)@ == st.current
            &&& zh_view(final(zh)@) == st.zh
            &&& st.sentences == sentences
            &&& st.en == en
        }),
{
    let ghost base = vocab.base();
    let ghost syls = opt_strings_view(*syllables);
    let ghost st0 = TokState {
        ext: vocab.ext(),
        sentences: sentences,
        current: current@,
        en: en,
        zh: zh_view(zh@),
    };
    let ghost ext0 = vocab.ext();
    let mut j: usize = 0;
    while j < run.len()
        invariant
            vocab.wf(),
            general.wf(),
            general@.len() <= vocab.base(),
            vocab.base() == base,
            base + ext0.len() + run@.len() < 0xffff_ffffu32,
            syllables matches Some(v) ==> start + run@.len() <= v@.len(),
            syls == opt_strings_view(*syllables),
            j <= run@.len(),
            vocab.ext().len() <= ext0.len() + j,
            seg_run(general@, base, syls, run@, start as int, 0, st0) == seg_run(
                general@,
                base,
                syls,
                run@,
                start as int,
                j as int,
                TokState {
                    ext: vocab.ext(),
                    sentences: sentences,
                    current: current@,
                    en: en,
                    zh: zh_view(zh@),
                },
            ),
        decreases run@.len() - j,
    {
        let ghost st = TokState {
            ext: vocab.ext(),
            sentences: sentences,
            current: current@,
            en: en,
            zh: zh_view(zh@),
        };
        let taken = greedy(vocab, general, run, j);
        let w = string_of(run.as_slice(), j, j + taken);
        let tok = vocab.token(general, w.as_str());
        current.push(tok);
        let ghost st1 = with_word(general@, base, st, w@);
        assert(current@ == st1.current);
        if taken >= 2 {
            let key = match syllables {
                Some(v) => {
                    assert(j + taken <= run@.len());
                    assert(start + run@.len() <= v@.len());
                    let _ = v.len();
                    Some(join_spaced_exec(v, start + j, start + j + taken))
                },
                None => None,
            };
            let ghost before = zh@;
            zh.push(ZhWord { tok: tok, word: w, key: key });
            proof {
                assert(zh_view(zh@) =~= zh_view(before).push(
                    ZhWordView { tok: st1.current.last(), word: run@.subrange(j as int, j + taken), key: key_of(syls, start + j, taken as int) },
                ));
            }
        }
        j += taken;
    }
    proof {
        let stj = TokState {
            ext: vocab.ext(),
            sentences: sentences,
            current: current@,
            en: en,
            zh: zh_view(zh@),
        };
        assert(seg_run(general@, base, syls, run@, start as int, j as int, stj) == stj);
    }
}


/// The hanzi of the run of hanzi units starting at `i`.
fn collect_run(units: &[Unit], i: usize) -> (run: Vec<char>)
    requires
        i <= units@.len(),
    ensures
        run@ == hanzi_run(units_view(units@), i as int),
        i + run@.len() <= units@.len(),
{
    let ghost uv = units_view(units@);
    let mut run: Vec<char> = Vec::new();
    let mut k = i;
    let mut more = true;
    while more && k < units.len()
        invariant
            uv == units_view(units@),
            i <= k <= units@.len(),
            k == i + run@.len(),
            run@ + hanzi_run(uv, k as int) == hanzi_run(uv, i as int),
            !more ==> hanzi_run(uv, k as int) == Seq::<char>::empty(),
        decreases units@.len() - k + (if more { 1int } else { 0int }),
    {
        proof {
            assert(uv[k as int] == units@[k as int]@);
        }
        match &units[k] {
            Unit::Hanzi(c) => {
                let ghost r0 = run@;
                run.push(*c);
                proof {
                    assert(hanzi_run(uv, k as int) == seq![*c] + hanzi_run(uv, k + 1));
                    assert(r0 + hanzi_run(uv, k as int) =~= run@ + hanzi_run(uv, k + 1));
                }
                k += 1;
            },
            _ => {
                more = false;
            },
        }
    }
    assert(hanzi_run(uv, k as int) == Seq::<char>::empty());
    assert(run@ + Seq::<char>::empty() =~= run@);
    run
}

/// Tokenize commit units into LM sentences, English words and multi-hanzi
/// words; `syllables` holds one syllable per unit when the commit could
/// be aligned with its keys.
pub fn tokenize(
    vocab: &mut PersonalVocab,
    general: &Interner,
    units: &[Unit],
    syllables: &Option<Vec<String>>,
) -> (t: Tokenized)
    requires
        old(vocab).wf(),
        general.wf(),
        general@.len() <= old(vocab).base(),
        old(vocab).base() + old(vocab).ext().len() + units@.len() < 0xffff_ffffu32,
        syllables matches Some(v) ==> v@.len() == units@.len(),
    ensures
        final(vocab).wf(),
        final(vocab).base() == old(vocab).base(),
        ({
            let st = tokenize_spec(
                general@,
                old(vocab).base(),
                old(vocab).ext(),
                opt_strings_view(*syllables),
                units_view(units@),
            );
            &&& final(vocab).ext() == st.ext
            &&& sentences_view(t.sentences@) == st.sentences
            &&& en_view(t.en_words@) == st.en
            &&& zh_view(t.zh_words@) == st.zh
        }),
        final(vocab).ext().len() <= old(vocab).ext().len() + units@.len(),
{
    let ghost base = vocab.base();
    let ghost syls = opt_strings_view(*syllables);
    let ghost uv = units_view(units@);
    let ghost ext0 = vocab.ext();
    let mut sentences: Vec<Vec<u32>> = Vec::new();
    let mut current: Vec<u32> = Vec::new();
    let mut en: Vec<EnWord> = Vec::new();
    let mut zh: Vec<ZhWord> = Vec::new();
    let mut i: usize = 0;
    proof {
        assert(sentences_view(sentences@) =~= Seq::<Seq<u32>>::empty());
        assert(en_view(en@) =~= Seq::<EnWordView>::empty());
        assert(zh_view(zh@) =~= Seq::<ZhWordView>::empty());
        assert(current@ =~= Seq::<u32>::empty());
    }
    while i < units.len()
        invariant
            vocab.wf(),
            general.wf(),
            general@.len() <= vocab.base(),
            vocab.base() == base,
            base + ext0.len() + units@.len() < 0xffff_ffffu32,
            syllables matches Some(v) ==> v@.len() == units@.len(),
            syls == opt_strings_view(*syllables),
            uv == units_view(units@),
            i <= units@.len(),
            vocab.ext().len() <= ext0.len() + i,
            tok_from(general@, base, syls, uv, 0, empty_state(ext0)) == tok_from(
                general@,
                base,
                syls,
                uv,
                i as int,
                TokState {
                    ext: vocab.ext(),
                    sentences: sentences_view(sentences@),
                    current: current@,
                    en: en_view(en@),
                    zh: zh_view(zh@),
                },
            ),
        decreases units@.len() - i,
    {
        let ghost st = TokState {
            ext: vocab.ext(),
            sentences: sentences_view(sentences@),
            current: current@,
            en: en_view(en@),
            zh: zh_view(zh@),
        };
        proof {
            assert(uv[i as int] == units@[i as int]@);
        }
        match &units[i] {
            Unit::Sep => {
                if current.len() > 0 {
                    let ghost s0 = sentences@;
                    let mut done: Vec<u32> = Vec::new();
                    std::mem::swap(&mut done, &mut current);
                    sentences.push(done);
                    proof {
                        assert(sentences_view(sentences@) =~= sentences_view(s0).push(st.current));
                        assert(current@ =~= Seq::<u32>::empty());
                    }
                }
                i += 1;
            },
            Unit::Ascii(surface) => {
                let lower = ascii_lowercase(surface.as_str());
                let n = lower.as_str().len();
                if 2 <= n && n <= 20 {
                    let tok = vocab.token(general, lower.as_str());
                    current.push(tok);
                    let ghost e0 = en@;
                    en.push(EnWord { tok: tok, surface: surface.clone(), lower: lower });
                    proof {
                        let st1 = with_word(general@, base, st, lower_seq(surface@));
                        assert(current@ == st1.current);
                        assert(en_view(en@) =~= en_view(e0).push(
                            EnWordView { tok: st1.current.last(), surface: surface@, lower: lower_seq(surface@) },
                        ));
                    }
                }
                i += 1;
            },
            Unit::Hanzi(_) => {
                let run = collect_run(units, i);
                proof {
                    crate::tokenize::lemma_hanzi_run_len(uv, i as int);
                }
                seg_run_exec(
                    vocab,
                    general,
                    syllables,
                    &run,
                    i,
                    &mut current,
                    &mut zh,
                    Ghost(sentences_view(sentences@)),
                    Ghost(en_view(en@)),
                );
                i = i + run.len();
            },
        }
    }
    proof {
        let stn = TokState {
            ext: vocab.ext(),
            sentences: sentences_view(sentences@),
            current: current@,
            en: en_view(en@),
            zh: zh_view(zh@),
        };
        assert(tok_from(general@, base, syls, uv, i as int, stn) == stn);
    }
    if current.len() > 0 {
        let ghost s0 = sentences@;
        let ghost c0 = current@;
        sentences.push(current);
        proof {
            assert(sentences_view(sentences@) =~= sentences_view(s0).push(c0));
        }
    }
    Tokenized { sentences: sentences, en_words: en, zh_words: zh }
}

/// A whole commit of 2..=6 hanzi, a candidate new word.
pub open spec fn is_phrase(text: Seq<char>) -> bool {
    2 <= text.len() <= 6 && forall|i: int| 0 <= i < text.len() ==> is_hanzi_spec(#[trigger] text[i])
}

pub fn is_phrase_exec(text: &str) -> (r: bool)
    ensures
        r == is_phrase(text@),
{
    let chars = crate::text::to_chars(text);
    if chars.len() < 2 || chars.len() > 6 {
        return false;
    }
    let mut i: usize = 0;
    while i < chars.len()
        invariant
            chars@ == text@,
            i <= chars@.len(),
            forall|k: int| 0 <= k < i ==> is_hanzi_spec(#[trigger] chars@[k]),
        decreases chars@.len() - i,
    {
        if !is_hanzi(chars[i]) {
            return false;
        }
        i += 1;
    }
    true
}

/// The syllables of a commit: its alignment with the typed keys, if any.
pub open spec fn syllables_of(
    units: Seq<UnitView>,
    input: Option<Seq<char>>,
    cp: Map<char, Seq<Seq<char>>>,
) -> Option<Seq<Seq<char>>> {
    match input {
        Some(k) => align_from(units, 0, lower_seq(k), 0, cp),
        None => None,
    }
}

/// What one commit teaches, before any weighting.
pub struct LearnPlan {
    pub tokens: Tokenized,
    /// One syllable per unit, when the commit aligned with its keys.
    pub syllables: Option<Vec<String>>,
    /// The whole commit as one token, when it is 2..=6 hanzi.
    pub phrase: Option<u32>,
    /// Its spaced pinyin, when the syllables are known.
    pub phrase_key: Option<String>,
}

/// Plan the learning from one committed `text` typed as `input`: split it
/// into units, align them with the keys, tokenize, and resolve the whole
/// commit as a phrase token when it is 2..=6 hanzi. `None` when the text
/// has no unit at all (nothing to learn).
pub fn plan_learning(
    vocab: &mut PersonalVocab,
    general: &Interner,
    readings: &CharReadings,
    text: &str,
    input: Option<&str>,
) -> (r: Option<LearnPlan>)
    requires
        old(vocab).wf(),
        general.wf(),
        readings.wf(),
        general@.len() <= old(vocab).base(),
        old(vocab).base() + old(vocab).ext().len() + text@.len() + 2 < 0xffff_ffffu32,
    ensures
        final(vocab).wf(),
        final(vocab).base() == old(vocab).base(),
        r is None <==> text@.len() == 0,
        r is None ==> final(vocab).ext() == old(vocab).ext(),
        r matches Some(p) ==> {
            let units = units_from(text@, seq![]);
            let syls = syllables_of(units, match input { Some(k) => Some(k@), None => None }, readings@);
            let st = tokenize_spec(general@, old(vocab).base(), old(vocab).ext(), syls, units);
            &&& opt_strings_view(p.syllables) == syls
            &&& sentences_view(p.tokens.sentences@) == st.sentences
            &&& en_view(p.tokens.en_words@) == st.en
            &&& zh_view(p.tokens.zh_words@) == st.zh
            &&& if is_phrase(text@) {
                &&& final(vocab).ext() == ext_after(general@, st.ext, text@)
                &&& p.phrase == Some(word_id(general@, final(vocab).ext(), old(vocab).base(), text@) as u32)
                &&& opt_string_view(p.phrase_key) == (match syls {
                    Some(s) => Some(join_spaced(s)),
                    None => None::<Seq<char>>,
                })
            } else {
                &&& final(vocab).ext() == st.ext
                &&& p.phrase is None
                &&& p.phrase_key is None
            }
        },
{
    let units = parse_units(text);
    proof {
        lemma_units_len(text@, seq![]);
    }
    if units.len() == 0 {
        return None;
    }
    let syllables = match input {
        Some(keys) => align(units.as_slice(), keys, readings),
        None => None,
    };
    assert(opt_strings_view(syllables) == syllables_of(
        units_view(units@),
        match input { Some(k) => Some(k@), None => None },
        readings@,
    ));
    let tokens = tokenize(vocab, general, units.as_slice(), &syllables);
    let mut phrase: Option<u32> = None;
    let mut phrase_key: Option<String> = None;
    if is_phrase_exec(text) {
        phrase = Some(vocab.token(general, text));
        phrase_key = match &syllables {
            Some(v) => {
                let k = join_spaced_exec(v, 0, v.len());
                assert(strings_view(v@).subrange(0, v@.len() as int) =~= strings_view(v@));
                Some(k)
            },
            None => None,
        };
    }
    Some(LearnPlan { tokens: tokens, syllables: syllables, phrase: phrase, phrase_key: phrase_key })
}

pub proof fn lemma_seg_run_sentences(
    general: Seq<Seq<char>>,
    base: u32,
    syls: Option<Seq<Seq<char>>>,
    run: Seq<char>,
    start: int,
    j: int,
    st: TokState,
)
    ensures
        seg_run(general, base, syls, run, start, j, st).sentences == st.sentences,
        seg_run(general, base, syls, run, start, j, st).en == st.en,
    decreases run.len() - j,
{
    if 0 <= j < run.len() {
        let taken = greedy_len(general, st.ext, run, j, max_word(run, j));
        lemma_greedy_len(general, st.ext, run, j, max_word(run, j));
        let w = run.subrange(j, j + taken);
        let st1 = with_word(general, base, st, w);
        let st2 = if taken >= 2 {
            TokState {
                ext: st1.ext,
                sentences: st1.sentences,
                current: st1.current,
                en: st1.en,
                zh: st1.zh.push(
                    ZhWordView { tok: st1.current.last(), word: w, key: key_of(syls, start + j, taken) },
                ),
            }
        } else {
            st1
        };
        lemma_seg_run_sentences(general, base, syls, run, start, j + taken, st2);
    }
}

pub proof fn lemma_tok_from_nonempty(
    general: Seq<Seq<char>>,
    base: u32,
    syls: Option<Seq<Seq<char>>>,
    units: Seq<UnitView>,
    i: int,
    st: TokState,
)
    requires
        all_nonempty(st.sentences),
    ensures
        all_nonempty(tok_from(general, base, syls, units, i, st).sentences),
    decreases units.len() - i,
{
    if 0 <= i < units.len() {
        match units[i] {
            UnitView::Sep => {
                lemma_tok_from_nonempty(general, base, syls, units, i + 1, close_sentence(st));
            },
            UnitView::Ascii(s) => {
                let lw = lower_seq(s);
                let st2 = if 2 <= byte_len(lw) <= 20 {
                    let st1 = with_word(general, base, st, lw);
                    TokState {
                        ext: st1.ext,
                        sentences: st1.sentences,
                        current: st1.current,
                        en: st1.en.push(EnWordView { tok: st1.current.last(), surface: s, lower: lw }),
                        zh: st1.zh,
                    }
                } else {
                    st
                };
                lemma_tok_from_nonempty(general, base, syls, units, i + 1, st2);
            },
            UnitView::Hanzi(c) => {
                let run = hanzi_run(units, i);
                assert(run == seq![c] + hanzi_run(units, i + 1));
                lemma_hanzi_run_len(units, i);
                lemma_seg_run_sentences(general, base, syls, run, i, 0, st);
                lemma_tok_from_nonempty(general, base, syls, units, i + run.len(), seg_run(general, base, syls, run, i, 0, st));
            },
        }
    }
}

/// Tokenizing never yields an empty sentence.
pub proof fn law_sentences_nonempty(
    general: Seq<Seq<char>>,
    base: u32,
    ext: Seq<Seq<char>>,
    syls: Option<Seq<Seq<char>>>,
    units: Seq<UnitView>,
)
    ensures
        all_nonempty(tokenize_spec(general, base, ext, syls, units).sentences),
{
    lemma_tok_from_nonempty(general, base, syls, units, 0, empty_state(ext));
}

} // verus!
