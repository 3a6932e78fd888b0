//! Personal memory: the text side of learning from committed text.
//!
//! What is learned from each commit: the committed text is split into
//! units (hanzi, ASCII runs, separators), aligned against the raw key
//! stream to recover each hanzi's syllable, and tokenized into LM
//! sentences by greedy longest match over known words. The weighted
//! counts built from these live with the caller.

use vstd::prelude::*;

use crate::readings::{strings_view, CharReadings};
use crate::lattice::{add_spec, is_ascii_seq, set_text_spec, Entry, EntryView, Matcher};
use crate::tables::{TokTextMap, TokenSet};
use crate::text::str_eq;
use crate::tokenize::{join_spaced, join_spaced_exec};
use crate::interner::{Interner, intern_spec, id_of, distinct};
use crate::text::{ascii_lowercase, lower_seq, push_char, to_chars};

verus! {

broadcast use vstd::string::group_string_axioms;

pub open spec fn is_hanzi_spec(c: char) -> bool {
    '\u{4e00}' <= c && c <= '\u{9fff}'
}

/// CJK unified ideographs (the basic block).
pub fn is_hanzi(c: char) -> (r: bool)
    ensures
        r == is_hanzi_spec(c),
{
    '\u{4e00}' <= c && c <= '\u{9fff}'
}

pub open spec fn is_ascii_alpha(c: char) -> bool {
    ('a' <= c && c <= 'z') || ('A' <= c && c <= 'Z')
}

/// Text units for alignment/tokenization.
pub enum Unit {
    Hanzi(char),
    /// An ASCII letter run, in the casing typed (for the casing votes).
    Ascii(String),
    /// Punctuation etc: sentence boundary, consumes no keys.
    Sep,
}

pub enum UnitView {
    Hanzi(char),
    Ascii(Seq<char>),
    Sep,
}

impl View for Unit {
    type V = UnitView;

    open spec fn view(&self) -> UnitView {
        match self {
            Unit::Hanzi(c) => UnitView::Hanzi(*c),
            Unit::Ascii(s) => UnitView::Ascii(s@),
            Unit::Sep => UnitView::Sep,
        }
    }
}

pub open spec fn units_view(v: Seq<Unit>) -> Seq<UnitView> {
    v.map_values(|u: Unit| u@)
}

/// A pending ASCII run as a unit (none if empty).
pub open spec fn flush_run(run: Seq<char>) -> Seq<UnitView> {
    if run.len() > 0 {
        seq![UnitView::Ascii(run)]
    } else {
        seq![]
    }
}

/// Units of `s` given the ASCII letters `run` read just before it: letters
/// gather into runs, every hanzi is a unit, anything else a separator.
pub open spec fn units_from(s: Seq<char>, run: Seq<char>) -> Seq<UnitView>
    decreases s.len(),
{
    if s.len() == 0 {
        flush_run(run)
    } else if is_ascii_alpha(s[0]) {
        units_from(s.drop_first(), run.push(s[0]))
    } else {
        flush_run(run) + seq![if is_hanzi_spec(s[0]) { UnitView::Hanzi(s[0]) } else { UnitView::Sep }]
            + units_from(s.drop_first(), seq![])
    }
}

/// Never more units than characters (plus one for a pending run).
pub proof fn lemma_units_len(s: Seq<char>, run: Seq<char>)
    ensures
        units_from(s, run).len() <= s.len() + (if run.len() > 0 { 1int } else { 0int }),
        run.len() == 0 && s.len() == 0 ==> units_from(s, run).len() == 0,
        s.len() > 0 ==> units_from(s, run).len() > 0,
    decreases s.len(),
{
    if s.len() > 0 {
        if is_ascii_alpha(s[0]) {
            lemma_units_len(s.drop_first(), run.push(s[0]));
        } else {
            lemma_units_len(s.drop_first(), seq![]);
        }
    }
}

/// Split a commit text into alignment/tokenization units.
pub fn parse_units(text: &str) -> (units: Vec<Unit>)
    ensures
        units_view(units@) == units_from(text@, seq![]),
{
    let chars = to_chars(text);
    let mut units: Vec<Unit> = Vec::new();
    let mut run = String::new();
    let mut i: usize = 0;
    assert(chars@.skip(0) =~= chars@);
    assert(units_view(units@) + units_from(chars@.skip(0), run@) =~= units_from(text@, seq![]));
    while i < chars.len()
        invariant
            chars@ == text@,
            i <= chars@.len(),
            units_view(units@) + units_from(chars@.skip(i as int), run@) == units_from(text@, seq![]),
        decreases chars@.len() - i,
    {
        let c = chars[i];
        let ghost u0 = units_view(units@);
        let ghost r0 = run@;
        proof {
            assert(chars@.skip(i as int).drop_first() =~= chars@.skip(i + 1));
            assert(chars@.skip(i as int)[0] == c);
        }
        if ('a' <= c && c <= 'z') || ('A' <= c && c <= 'Z') {
            push_char(&mut run, c);
        } else {
            if !run.as_str().is_empty() {
                let mut taken = String::new();
                std::mem::swap(&mut taken, &mut run);
                units.push(Unit::Ascii(taken));
            }
            if is_hanzi(c) {
                units.push(Unit::Hanzi(c));
            } else {
                units.push(Unit::Sep);
            }
            proof {
                assert(units_view(units@) =~= u0 + flush_run(r0)
                    + seq![if is_hanzi_spec(c) { UnitView::Hanzi(c) } else { UnitView::Sep }]);
                assert(run@ =~= Seq::<char>::empty());
            }
        }
        i += 1;
    }
    if !run.as_str().is_empty() {
        let ghost u0 = units_view(units@);
        let ghost r0 = run@;
        units.push(Unit::Ascii(run));
        assert(units_view(units@) =~= u0 + flush_run(r0));
    } else {
        assert(units_view(units@) =~= units_view(units@) + flush_run(run@));
    }
    units
}

/// `s` occurs in `keys` at `pos`.
pub open spec fn occurs_at(keys: Seq<char>, pos: int, s: Seq<char>) -> bool {
    0 <= pos && pos + s.len() <= keys.len() && keys.subrange(pos, pos + s.len()) == s
}

/// Align units `ui..` against `keys[pos..]` (already lowercased): each
/// hanzi consumes one of its known syllables (tried in order, with
/// backtracking), each ASCII run consumes itself lowercased, separators
/// consume nothing. One syllable per unit (empty for non-hanzi), only if
/// the keys are consumed exactly.
pub open spec fn align_from(
    units: Seq<UnitView>,
    ui: int,
    keys: Seq<char>,
    pos: int,
    cp: Map<char, Seq<Seq<char>>>,
) -> Option<Seq<Seq<char>>>
    decreases units.len() - ui, 1int, 0int,
{
    if ui < 0 || ui >= units.len() {
        if pos == keys.len() { Some(seq![]) } else { None }
    } else {
        match units[ui] {
            UnitView::Sep => match align_from(units, ui + 1, keys, pos, cp) {
                Some(r) => Some(seq![seq![]] + r),
                None => None,
            },
            UnitView::Ascii(s) => if occurs_at(keys, pos, lower_seq(s)) {
                match align_from(units, ui + 1, keys, pos + s.len(), cp) {
                    Some(r) => Some(seq![seq![]] + r),
                    None => None,
                }
            } else {
                None
            },
            UnitView::Hanzi(c) => if cp.contains_key(c) {
                align_try(units, ui, keys, pos, cp, cp[c], 0)
            } else {
                None
            },
        }
    }
}

/// Try the readings `rs[k..]` for the hanzi at unit `ui`.
pub open spec fn align_try(
    units: Seq<UnitView>,
    ui: int,
    keys: Seq<char>,
    pos: int,
    cp: Map<char, Seq<Seq<char>>>,
    rs: Seq<Seq<char>>,
    k: int,
) -> Option<Seq<Seq<char>>>
    decreases units.len() - ui, 0int, rs.len() - k,
{
    if k < 0 || k >= rs.len() || ui < 0 || ui >= units.len() {
        None
    } else {
        let syl = rs[k];
        let here = if occurs_at(keys, pos, syl) {
            match align_from(units, ui + 1, keys, pos + syl.len(), cp) {
                Some(r) => Some(seq![syl] + r),
                None => None,
            }
        } else {
            None
        };
        match here {
            Some(r) => Some(r),
            None => align_try(units, ui, keys, pos, cp, rs, k + 1),
        }
    }
}

/// An alignment gives one syllable per unit.
pub proof fn lemma_align_len(
    units: Seq<UnitView>,
    ui: int,
    keys: Seq<char>,
    pos: int,
    cp: Map<char, Seq<Seq<char>>>,
)
    requires
        0 <= ui <= units.len(),
    ensures
        align_from(units, ui, keys, pos, cp) matches Some(r) ==> r.len() == units.len() - ui,
    decreases units.len() - ui, 1int, 0int,
{
    if ui < units.len() {
        match units[ui] {
            UnitView::Sep => lemma_align_len(units, ui + 1, keys, pos, cp),
            UnitView::Ascii(s) => lemma_align_len(units, ui + 1, keys, pos + s.len(), cp),
            UnitView::Hanzi(c) => if cp.contains_key(c) {
                lemma_align_try_len(units, ui, keys, pos, cp, cp[c], 0);
            },
        }
    }
}

pub proof fn lemma_align_try_len(
    units: Seq<UnitView>,
    ui: int,
    keys: Seq<char>,
    pos: int,
    cp: Map<char, Seq<Seq<char>>>,
    rs: Seq<Seq<char>>,
    k: int,
)
    requires
        0 <= ui < units.len(),
    ensures
        align_try(units, ui, keys, pos, cp, rs, k) matches Some(r) ==> r.len() == units.len() - ui,
    decreases units.len() - ui, 0int, rs.len() - k,
{
    if 0 <= k < rs.len() {
        lemma_align_len(units, ui + 1, keys, pos + rs[k].len(), cp);
        lemma_align_try_len(units, ui, keys, pos, cp, rs, k + 1);
    }
}

/// The keys a unit consumes given its syllable: a hanzi its syllable, an
/// ASCII run itself lowercased, a separator nothing.
pub open spec fn consumed(u: UnitView, syl: Seq<char>) -> Seq<char> {
    match u {
        UnitView::Hanzi(_) => syl,
        UnitView::Ascii(s) => lower_seq(s),
        UnitView::Sep => seq![],
    }
}

/// What units `ui..` consume with the syllables `r`, in order.
pub open spec fn consumed_all(units: Seq<UnitView>, ui: int, r: Seq<Seq<char>>) -> Seq<char>
    decreases r.len(),
{
    if r.len() == 0 || ui < 0 || ui >= units.len() {
        seq![]
    } else {
        consumed(units[ui], r[0]) + consumed_all(units, ui + 1, r.drop_first())
    }
}

/// A syllable fits its unit: a known reading of a hanzi, empty otherwise.
pub open spec fn fits(u: UnitView, syl: Seq<char>, cp: Map<char, Seq<Seq<char>>>) -> bool {
    match u {
        UnitView::Hanzi(c) => cp.contains_key(c) && cp[c].contains(syl),
        _ => syl.len() == 0,
    }
}

pub proof fn lemma_align_sound(
    units: Seq<UnitView>,
    ui: int,
    keys: Seq<char>,
    pos: int,
    cp: Map<char, Seq<Seq<char>>>,
)
    requires
        0 <= ui <= units.len(),
        0 <= pos <= keys.len(),
    ensures
        align_from(units, ui, keys, pos, cp) matches Some(r) ==> {
            &&& consumed_all(units, ui, r) == keys.skip(pos)
            &&& forall|i: int| 0 <= i < r.len() ==> fits(units[ui + i], #[trigger] r[i], cp)
        },
    decreases units.len() - ui, 1int, 0int,
{
    if ui == units.len() {
        if pos == keys.len() {
            assert(keys.skip(pos) =~= Seq::<char>::empty());
        }
    } else {
        match units[ui] {
            UnitView::Sep => {
                lemma_align_sound(units, ui + 1, keys, pos, cp);
                if let Some(rest) = align_from(units, ui + 1, keys, pos, cp) {
                    let r = seq![Seq::<char>::empty()] + rest;
                    assert(r.drop_first() =~= rest);
                    assert(consumed_all(units, ui, r) =~= keys.skip(pos));
                    assert forall|i: int| 0 <= i < r.len() implies fits(units[ui + i], #[trigger] r[i], cp) by {
                        if i > 0 {
                            assert(r[i] == rest[i - 1]);
                        }
                    }
                }
            },
            UnitView::Ascii(a) => {
                let l = lower_seq(a);
                if occurs_at(keys, pos, l) {
                    assert(l.len() == a.len());
                    lemma_align_sound(units, ui + 1, keys, pos + a.len(), cp);
                    if let Some(rest) = align_from(units, ui + 1, keys, pos + a.len(), cp) {
                        let r = seq![Seq::<char>::empty()] + rest;
                        assert(r.drop_first() =~= rest);
                        assert(keys.skip(pos) =~= l + keys.skip(pos + a.len()));
                        assert(consumed_all(units, ui, r) =~= keys.skip(pos));
                        assert forall|i: int| 0 <= i < r.len() implies fits(units[ui + i], #[trigger] r[i], cp) by {
                            if i > 0 {
                                assert(r[i] == rest[i - 1]);
                            }
                        }
                    }
                }
            },
            UnitView::Hanzi(c) => {
                if cp.contains_key(c) {
                    lemma_align_try_sound(units, ui, keys, pos, cp, cp[c], 0);
                }
            },
        }
    }
}

pub proof fn lemma_align_try_sound(
    units: Seq<UnitView>,
    ui: int,
    keys: Seq<char>,
    pos: int,
    cp: Map<char, Seq<Seq<char>>>,
    rs: Seq<Seq<char>>,
    k: int,
)
    requires
        0 <= ui < units.len(),
        0 <= pos <= keys.len(),
        units[ui] matches UnitView::Hanzi(c) && cp.contains_key(c) && cp[c] == rs,
        0 <= k,
    ensures
        align_try(units, ui, keys, pos, cp, rs, k) matches Some(r) ==> {
            &&& consumed_all(units, ui, r) == keys.skip(pos)
            &&& forall|i: int| 0 <= i < r.len() ==> fits(units[ui + i], #[trigger] r[i], cp)
        },
    decreases units.len() - ui, 0int, rs.len() - k,
{
    if k < rs.len() {
        let syl = rs[k];
        if occurs_at(keys, pos, syl) {
            lemma_align_sound(units, ui + 1, keys, pos + syl.len(), cp);
            if let Some(rest) = align_from(units, ui + 1, keys, pos + syl.len(), cp) {
                let r = seq![syl] + rest;
                assert(r.drop_first() =~= rest);
                assert(keys.skip(pos) =~= syl + keys.skip(pos + syl.len()));
                assert(consumed_all(units, ui, r) =~= keys.skip(pos));
                assert forall|i: int| 0 <= i < r.len() implies fits(units[ui + i], #[trigger] r[i], cp) by {
                    if i > 0 {
                        assert(r[i] == rest[i - 1]);
                    } else {
                        assert(rs[k] == syl);
                        assert(rs.contains(syl));
                    }
                }
            }
        }
        lemma_align_try_sound(units, ui, keys, pos, cp, rs, k + 1);
    }
}

/// An alignment accounts for the keys exactly: each hanzi takes one of
/// its known readings, each ASCII run itself lowercased, each separator
/// nothing, and together, in order, they spell the lowercased keys.
pub proof fn law_align_sound(units: Seq<UnitView>, keys: Seq<char>, cp: Map<char, Seq<Seq<char>>>)
    ensures
        align_from(units, 0, lower_seq(keys), 0, cp) matches Some(r) ==> {
            &&& r.len() == units.len()
            &&& consumed_all(units, 0, r) == lower_seq(keys)
            &&& forall|i: int| 0 <= i < r.len() ==> fits(units[i], #[trigger] r[i], cp)
        },
{
    let lk = lower_seq(keys);
    lemma_align_sound(units, 0, lk, 0, cp);
    lemma_align_len(units, 0, lk, 0, cp);
    assert(lk.skip(0) =~= lk);
    if let Some(r) = align_from(units, 0, lk, 0, cp) {
        assert forall|i: int| 0 <= i < r.len() implies fits(units[i], #[trigger] r[i], cp) by {
            assert(units[0 + i] == units[i]);
        }
    }
}

/// Align text units against the raw key stream (case-insensitively).
/// Partial or edited commits yield None and simply skip pinyin-dependent
/// learning.
pub fn align(units: &[Unit], keys: &str, readings: &CharReadings) -> (r: Option<Vec<String>>)
    requires
        readings.wf(),
    ensures
        match (r, align_from(units_view(units@), 0, lower_seq(keys@), 0, readings@)) {
            (Some(v), Some(s)) => strings_view(v@) == s,
            (None, None) => true,
            _ => false,
        },
        r matches Some(v) ==> v@.len() == units@.len(),
{
    let lower = ascii_lowercase(keys);
    let kc = to_chars(lower.as_str());
    let mut out: Vec<String> = Vec::new();
    let _ = units.len();
    let _ = kc.len();
    if align_go(units, 0, &kc, 0, readings, &mut out) {
        proof {
            lemma_align_len(units_view(units@), 0, kc@, 0, readings@);
        }
        assert(strings_view(out@) =~= strings_view(Seq::<String>::empty()) + align_from(units_view(units@), 0, kc@, 0, readings@).unwrap());
        Some(out)
    } else {
        None
    }
}

/// Whether `s` occurs in `keys` at `pos`.
fn occurs(keys: &Vec<char>, pos: usize, s: &Vec<char>) -> (r: bool)
    ensures
        r == occurs_at(keys@, pos as int, s@),
{
    let n = keys.len();
    if pos > n || s.len() > n - pos {
        return false;
    }
    let mut i: usize = 0;
    while i < s.len()
        invariant
            n == keys@.len(),
            pos + s@.len() <= n,
            i <= s@.len(),
            forall|t: int| 0 <= t < i ==> keys@[pos + t] == s@[t],
        decreases s@.len() - i,
    {
        if keys[pos + i] != s[i] {
            assert(keys@.subrange(pos as int, pos + s@.len())[i as int] != s@[i as int]);
            return false;
        }
        i += 1;
    }
    assert(keys@.subrange(pos as int, pos + s@.len()) =~= s@);
    true
}

fn align_go(
    units: &[Unit],
    ui: usize,
    keys: &Vec<char>,
    pos: usize,
    readings: &CharReadings,
    out: &mut Vec<String>,
) -> (ok: bool)
    requires
        readings.wf(),
        ui <= units@.len() <= usize::MAX,
        pos <= keys@.len() <= usize::MAX,
    ensures
        ok == align_from(units_view(units@), ui as int, keys@, pos as int, readings@) is Some,
        ok ==> strings_view(final(out)@) == strings_view(old(out)@)
            + align_from(units_view(units@), ui as int, keys@, pos as int, readings@).unwrap(),
        !ok ==> final(out)@ == old(out)@,
    decreases units@.len() - ui, 1int, 0int,
{
    let ghost uv = units_view(units@);
    if ui == units.len() {
        assert(strings_view(out@) + Seq::<Seq<char>>::empty() =~= strings_view(out@));
        return pos == keys.len();
    }
    proof {
        assert(uv[ui as int] == units@[ui as int]@);
    }
    match &units[ui] {
        Unit::Sep => {
            let ghost before = out@;
            out.push(String::new());
            proof {
                assert(strings_view(out@) =~= strings_view(before).push(Seq::<char>::empty()));
            }
            if align_go(units, ui + 1, keys, pos, readings, out) {
                proof {
                    let rest = align_from(uv, ui + 1, keys@, pos as int, readings@).unwrap();
                    assert(strings_view(before).push(Seq::<char>::empty()) + rest =~= strings_view(before) + (seq![Seq::<char>::empty()] + rest));
                }
                return true;
            }
            out.pop();
            assert(out@ =~= before);
            false
        },
        Unit::Ascii(s) => {
            let lower = ascii_lowercase(s.as_str());
            let lc = to_chars(lower.as_str());
            if !occurs(keys, pos, &lc) {
                return false;
            }
            let ghost before = out@;
            out.push(String::new());
            proof {
                assert(strings_view(out@) =~= strings_view(before).push(Seq::<char>::empty()));
            }
            let next = pos + lc.len();
            if align_go(units, ui + 1, keys, next, readings, out) {
                proof {
                    let rest = align_from(uv, ui + 1, keys@, next as int, readings@).unwrap();
                    assert(strings_view(before).push(Seq::<char>::empty()) + rest =~= strings_view(before) + (seq![Seq::<char>::empty()] + rest));
                }
                return true;
            }
            out.pop();
            assert(out@ =~= before);
            false
        },
        Unit::Hanzi(c) => {
            match readings.get(*c) {
                Some(rs) => align_readings(units, ui, keys, pos, readings, rs, out),
                None => false,
            }
        },
    }
}

fn align_readings(
    units: &[Unit],
    ui: usize,
    keys: &Vec<char>,
    pos: usize,
    readings: &CharReadings,
    rs: &Vec<String>,
    out: &mut Vec<String>,
) -> (ok: bool)
    requires
        readings.wf(),
        ui < units@.len() <= usize::MAX,
        pos <= keys@.len() <= usize::MAX,
    ensures
        ok == align_try(units_view(units@), ui as int, keys@, pos as int, readings@, strings_view(rs@), 0) is Some,
        ok ==> strings_view(final(out)@) == strings_view(old(out)@)
            + align_try(units_view(units@), ui as int, keys@, pos as int, readings@, strings_view(rs@), 0).unwrap(),
        !ok ==> final(out)@ == old(out)@,
    decreases units@.len() - ui, 0int, rs@.len() + 1,
{
    let ghost uv = units_view(units@);
    let ghost rv = strings_view(rs@);
    let mut k: usize = 0;
    while k < rs.len()
        invariant
            readings.wf(),
            ui < units@.len() <= usize::MAX,
            pos <= keys@.len() <= usize::MAX,
            uv == units_view(units@),
            rv == strings_view(rs@),
            k <= rs@.len(),
            out@ == old(out)@,
            align_try(uv, ui as int, keys@, pos as int, readings@, rv, 0)
                == align_try(uv, ui as int, keys@, pos as int, readings@, rv, k as int),
        decreases rs@.len() - k,
    {
        let syl = to_chars(rs[k].as_str());
        proof {
            assert(rv[k as int] == rs@[k as int]@);
        }
        if occurs(keys, pos, &syl) {
            let ghost before = out@;
            out.push(rs[k].clone());
            proof {
                assert(strings_view(out@) =~= strings_view(before).push(rv[k as int]));
            }
            let next = pos + syl.len();
            if align_go(units, ui + 1, keys, next, readings, out) {
                proof {
                    let rest = align_from(uv, ui + 1, keys@, next as int, readings@).unwrap();
                    assert(strings_view(before).push(rv[k as int]) + rest =~= strings_view(before) + (seq![rv[k as int]] + rest));
                }
                return true;
            }
            out.pop();
            assert(out@ =~= before);
        }
        k += 1;
    }
    false
}


/// How a personal token id is resolved: general-vocabulary words keep
/// their general id, other words are numbered past the general vocabulary
/// (`base`) in order of first appearance.
pub open spec fn word_id(general: Seq<Seq<char>>, ext: Seq<Seq<char>>, base: u32, w: Seq<char>) -> int {
    if general.contains(w) {
        id_of(general, w)
    } else {
        base + id_of(ext, w)
    }
}

/// The extension table after resolving `w`.
pub open spec fn ext_after(general: Seq<Seq<char>>, ext: Seq<Seq<char>>, w: Seq<char>) -> Seq<Seq<char>> {
    if general.contains(w) {
        ext
    } else {
        intern_spec(ext, w).0
    }
}

/// Words the personal layer knows: general vocabulary or seen before.
pub open spec fn known(general: Seq<Seq<char>>, ext: Seq<Seq<char>>, w: Seq<char>) -> bool {
    general.contains(w) || ext.contains(w)
}

/// Token ids form a bijection: over distinct general and extension tables
/// with no word in both, known words get distinct ids, general words ids
/// below the general vocabulary size `base`, extension words ids from
/// `base` on; and resolving any word keeps the tables that way.
pub proof fn law_token_bijection(general: Seq<Seq<char>>, ext: Seq<Seq<char>>, base: u32, w1: Seq<char>, w2: Seq<char>)
    requires
        distinct(general),
        distinct(ext),
        forall|w: Seq<char>| #[trigger] ext.contains(w) ==> !general.contains(w),
        general.len() <= base,
    ensures
        known(general, ext, w1) && known(general, ext, w2) && word_id(general, ext, base, w1) == word_id(general, ext, base, w2)
            ==> w1 == w2,
        general.contains(w1) ==> 0 <= word_id(general, ext, base, w1) < general.len(),
        !general.contains(w1) && ext.contains(w1) ==> base <= word_id(general, ext, base, w1) < base + ext.len(),
        distinct(ext_after(general, ext, w1)),
        forall|w: Seq<char>| #[trigger] ext_after(general, ext, w1).contains(w) ==> !general.contains(w),
        known(general, ext_after(general, ext, w1), w1),
{
    if general.contains(w1) {
        let i = id_of(general, w1);
        assert(general[i] == w1);
    }
    if !general.contains(w1) && ext.contains(w1) {
        let i = id_of(ext, w1);
        assert(ext[i] == w1);
    }
    if general.contains(w2) {
        let i = id_of(general, w2);
        assert(general[i] == w2);
    }
    if !general.contains(w2) && ext.contains(w2) {
        let i = id_of(ext, w2);
        assert(ext[i] == w2);
    }
    if !general.contains(w1) {
        crate::interner::law_intern(ext, w1);
        let e1 = ext_after(general, ext, w1);
        assert forall|w: Seq<char>| #[trigger] e1.contains(w) implies !general.contains(w) by {
            let j = choose|j: int| 0 <= j < e1.len() && e1[j] == w;
            if j < ext.len() {
                assert(ext[j] == w);
                assert(ext.contains(w));
            }
        }
        assert(e1.contains(w1)) by {
            let id = intern_spec(ext, w1).1;
            assert(e1[id] == w1);
        }
    } else {
        assert(general.contains(w1));
    }
}

/// A word keeps its token: once resolved, resolving any other word
/// leaves its id unchanged, and resolving it again changes nothing.
pub proof fn law_token_stable(general: Seq<Seq<char>>, ext: Seq<Seq<char>>, base: u32, w: Seq<char>, v: Seq<char>)
    requires
        distinct(ext),
    ensures
        ({
            let e1 = ext_after(general, ext, w);
            let e2 = ext_after(general, e1, v);
            &&& word_id(general, e2, base, w) == word_id(general, e1, base, w)
            &&& ext_after(general, e1, w) == e1
        }),
{
    let e1 = ext_after(general, ext, w);
    if !general.contains(w) {
        crate::interner::lemma_intern_id(ext, w);
        crate::interner::law_resolve_intern(ext, w);
        crate::interner::lemma_intern_distinct(ext, w);
        assert(e1.contains(w));
        if !general.contains(v) {
            crate::interner::lemma_intern_keeps_ids(e1, v, w);
        }
    }
}

/// Token ids beyond the general vocabulary, for words first seen in
/// commits.
pub struct PersonalVocab {
    base_vocab: u32,
    ext: Interner,
}

impl PersonalVocab {
    pub closed spec fn base(&self) -> u32 {
        self.base_vocab
    }

    /// Words numbered past the general vocabulary, in order.
    pub closed spec fn ext(&self) -> Seq<Seq<char>> {
        self.ext@
    }

    pub closed spec fn wf(&self) -> bool {
        self.ext.wf()
    }

    /// The general vocabulary size ids are numbered past.
    pub fn base_len(&self) -> (n: u32)
        ensures
            n == self.base(),
    {
        self.base_vocab
    }

    /// How many words were numbered past the general vocabulary.
    pub fn ext_len(&self) -> (n: usize)
        ensures
            n == self.ext().len(),
    {
        self.ext.len()
    }

    /// An empty extension over a general vocabulary of `base` tokens.
    pub fn new(base: u32) -> (r: Self)
        ensures
            r.wf(),
            r.base() == base,
            r.ext() == Seq::<Seq<char>>::empty(),
    {
        PersonalVocab { base_vocab: base, ext: Interner::new() }
    }

    /// Resolve a word to its token id, extending past the general vocab.
    pub fn token(&mut self, general: &Interner, s: &str) -> (id: u32)
        requires
            old(self).wf(),
            general.wf(),
            general@.len() <= old(self).base(),
            old(self).base() + old(self).ext().len() < 0xffff_ffffu32,
        ensures
            final(self).wf(),
            final(self).base() == old(self).base(),
            final(self).ext() == ext_after(general@, old(self).ext(), s@),
            id == word_id(general@, final(self).ext(), final(self).base(), s@),
            !general@.contains(s@) ==> id >= final(self).base(),
    {
        if let Some(id) = general.get(s) {
            return id;
        }
        if let Some(j) = self.ext.get(s) {
            return self.base_vocab + j;
        }
        let ghost before = self.ext@;
        let j = self.ext.intern(s);
        proof {
            let e = self.ext@;
            assert(!before.contains(s@));
            assert(e == before.push(s@));
            assert(e[j as int] == s@);
            assert(e.contains(s@));
            let k = id_of(e, s@);
            if k != j as int {
                assert(before[k] == s@);
                assert(before.contains(s@));
            }
        }
        self.base_vocab + j
    }

    pub fn known_word(&self, general: &Interner, s: &str) -> (r: bool)
        requires
            self.wf(),
            general.wf(),
        ensures
            r == known(general@, self.ext(), s@),
    {
        general.get(s).is_some() || self.ext.get(s).is_some()
    }
}

/// `s` without its spaces (the matcher key of a spaced pinyin).
pub open spec fn without_spaces(s: Seq<char>) -> Seq<char>
    decreases s.len(),
{
    if s.len() == 0 {
        seq![]
    } else if s.last() == ' ' {
        without_spaces(s.drop_last())
    } else {
        without_spaces(s.drop_last()).push(s.last())
    }
}

pub fn without_spaces_exec(s: &str) -> (r: String)
    ensures
        r@ == without_spaces(s@),
{
    let chars = to_chars(s);
    let mut r = String::new();
    let mut i: usize = 0;
    while i < chars.len()
        invariant
            chars@ == s@,
            i <= chars@.len(),
            r@ == without_spaces(chars@.take(i as int)),
        decreases chars@.len() - i,
    {
        assert(chars@.take(i + 1).drop_last() =~= chars@.take(i as int));
        if chars[i] != ' ' {
            push_char(&mut r, chars[i]);
        }
        i += 1;
    }
    assert(chars@.take(i as int) =~= chars@);
    r
}

/// Every hanzi of `word` has a reading.
pub open spec fn all_readable(word: Seq<char>, cp: Map<char, Seq<Seq<char>>>) -> bool {
    forall|i: int| 0 <= i < word.len() ==> cp.contains_key(#[trigger] word[i]) && cp[word[i]].len() > 0
}

/// The first known reading of each hanzi of `word`.
pub open spec fn first_readings(word: Seq<char>, cp: Map<char, Seq<Seq<char>>>) -> Seq<Seq<char>> {
    Seq::new(word.len(), |i: int| cp[word[i]][0])
}

/// The spaced pinyin a Chinese arc is keyed by: the aligned key when one
/// is given and not empty, else the first reading of each hanzi (none if
/// some hanzi has no reading).
pub open spec fn arc_key(word: Seq<char>, key: Option<Seq<char>>, cp: Map<char, Seq<Seq<char>>>) -> Option<Seq<char>> {
    match key {
        Some(k) if k.len() > 0 => Some(k),
        _ => if all_readable(word, cp) {
            Some(join_spaced(first_readings(word, cp)))
        } else {
            None
        },
    }
}

pub open spec fn opt_str_view(o: Option<&str>) -> Option<Seq<char>> {
    match o {
        Some(s) => Some(s@),
        None => None,
    }
}

/// The first reading of each hanzi of `word`, spaced; none if some hanzi
/// has no reading.
fn first_reading_key(readings: &CharReadings, word: &str) -> (r: Option<String>)
    requires
        readings.wf(),
    ensures
        r matches Some(k) ==> all_readable(word@, readings@) && k@ == join_spaced(first_readings(word@, readings@)),
        r is None ==> !all_readable(word@, readings@),
{
    let chars = to_chars(word);
    let mut parts: Vec<String> = Vec::new();
    let mut i: usize = 0;
    while i < chars.len()
        invariant
            readings.wf(),
            chars@ == word@,
            i <= chars@.len(),
            parts@.len() == i,
            forall|t: int| 0 <= t < i ==> readings@.contains_key(#[trigger] chars@[t])
                && readings@[chars@[t]].len() > 0,
            forall|t: int| 0 <= t < i ==> #[trigger] parts@[t]@ == readings@[chars@[t]][0],
        decreases chars@.len() - i,
    {
        match readings.get(chars[i]) {
            Some(rs) => {
                if rs.len() == 0 {
                    return None;
                }
                proof {
                    assert(strings_view(rs@)[0] == rs@[0]@);
                }
                parts.push(rs[0].clone());
            },
            None => {
                return None;
            },
        }
        i += 1;
    }
    proof {
        assert(strings_view(parts@) =~= first_readings(word@, readings@));
        assert(strings_view(parts@).subrange(0, parts@.len() as int) =~= strings_view(parts@));
    }
    Some(join_spaced_exec(&parts, 0, parts.len()))
}

/// The spaced pinyin a Chinese arc for `word` would be keyed by.
pub fn arc_key_for(readings: &CharReadings, word: &str, key: Option<&str>) -> (r: Option<String>)
    requires
        readings.wf(),
    ensures
        match r {
            Some(k) => arc_key(word@, opt_str_view(key), readings@) == Some(k@),
            None => arc_key(word@, opt_str_view(key), readings@) is None,
        },
{
    match key {
        Some(k) if !k.is_empty() => Some(k.to_string()),
        _ => first_reading_key(readings, word),
    }
}

/// The arcs the personal layer adds to the lattice: Chinese words the
/// dictionary lacks, and the user's English terms in their casing.
pub struct PersonalArcs {
    zh: Matcher,
    en: Matcher,
    zh_added: TokenSet,
    en_added: TokenSet,
    /// Current surface of each English arc.
    en_surface: TokTextMap,
}

impl PersonalArcs {
    pub closed spec fn zh_added(&self) -> Set<u32> {
        self.zh_added@
    }

    pub closed spec fn en_added(&self) -> Set<u32> {
        self.en_added@
    }

    pub closed spec fn en_surface(&self) -> Map<u32, Seq<char>> {
        self.en_surface@
    }

    pub closed spec fn zh_m(&self) -> Matcher {
        self.zh
    }

    pub closed spec fn en_m(&self) -> Matcher {
        self.en
    }

    pub closed spec fn wf(&self) -> bool {
        self.zh.wf() && self.en.wf()
    }

    /// The matcher of personal Chinese words.
    pub fn zh_matcher(&self) -> (r: &Matcher)
        ensures
            *r == self.zh_m(),
            self.wf() ==> r.wf(),
    {
        &self.zh
    }

    /// The matcher of personal English words.
    pub fn en_matcher(&self) -> (r: &Matcher)
        ensures
            *r == self.en_m(),
            self.wf() ==> r.wf(),
    {
        &self.en
    }

    pub fn new() -> (r: Self)
        ensures
            r.wf(),
            r.zh_m()@ == Map::<Seq<char>, Seq<EntryView>>::empty(),
            r.en_m()@ == Map::<Seq<char>, Seq<EntryView>>::empty(),
            r.zh_added() == Set::<u32>::empty(),
            r.en_added() == Set::<u32>::empty(),
            r.en_surface() == Map::<u32, Seq<char>>::empty(),
    {
        PersonalArcs {
            zh: Matcher::new(),
            en: Matcher::new(),
            zh_added: TokenSet::new(),
            en_added: TokenSet::new(),
            en_surface: TokTextMap::new(),
        }
    }

    /// How many Chinese words have an arc.
    pub fn zh_count(&self) -> (r: usize)
        ensures
            r as int == self.zh_added().len(),
    {
        self.zh_added.len()
    }

    /// How many English words have an arc.
    pub fn en_count(&self) -> (r: usize)
        ensures
            r as int == self.en_added().len(),
    {
        self.en_added.len()
    }

    pub fn has_zh(&self, tok: u32) -> (r: bool)
        ensures
            r == self.zh_added().contains(tok),
    {
        self.zh_added.contains(tok)
    }

    pub fn has_en(&self, tok: u32) -> (r: bool)
        ensures
            r == self.en_added().contains(tok),
    {
        self.en_added.contains(tok)
    }

    pub fn surface(&self, tok: u32) -> (r: Option<&String>)
        ensures
            r matches Some(v) ==> self.en_surface().contains_key(tok) && v@ == self.en_surface()[tok],
            r is None ==> !self.en_surface().contains_key(tok),
    {
        self.en_surface.get(tok)
    }

    /// Give a Chinese word its own arc, keyed by its pinyin without spaces,
    /// unless it already has one or the dictionary knows it, or no pinyin
    /// is known for it. Returns whether the arc was added.
    pub fn add_zh_arc(
        &mut self,
        dict_tokens: &TokenSet,
        readings: &CharReadings,
        tok: u32,
        word: &str,
        key: Option<&str>,
    ) -> (added: bool)
        requires
            old(self).wf(),
            readings.wf(),
            old(self).zh_m().key_view().len() + 1 < 0xffff_ffffu32,
            !old(self).zh_added().contains(tok) && !dict_tokens@.contains(tok) ==> (arc_key(
                word@,
                opt_str_view(key),
                readings@,
            ) matches Some(k) ==> is_ascii_seq(without_spaces(k))),
        ensures
            final(self).wf(),
            added == (!old(self).zh_added().contains(tok) && !dict_tokens@.contains(tok)
                && arc_key(word@, opt_str_view(key), readings@) is Some),
            added ==> {
                let k = arc_key(word@, opt_str_view(key), readings@).unwrap();
                &&& final(self).zh_m()@ == add_spec(
                    old(self).zh_m()@,
                    without_spaces(k),
                    EntryView { text: word@, pinyin: k, lm_token: tok },
                )
                &&& final(self).zh_added() == old(self).zh_added().insert(tok)
            },
            !added ==> final(self).zh_m()@ == old(self).zh_m()@ && final(self).zh_added() == old(self).zh_added(),
            final(self).zh_m().key_view().len() <= old(self).zh_m().key_view().len() + 1,
            final(self).en_m() == old(self).en_m(),
            final(self).en_added() == old(self).en_added(),
            final(self).en_surface() == old(self).en_surface(),
    {
        if self.zh_added.contains(tok) || dict_tokens.contains(tok) {
            return false;
        }
        let spaced = match key {
            Some(k) if !k.is_empty() => k.to_string(),
            _ => match first_reading_key(readings, word) {
                Some(k) => k,
                None => {
                    return false;
                },
            },
        };
        assert(arc_key(word@, opt_str_view(key), readings@) == Some(spaced@));
        let concat = without_spaces_exec(spaced.as_str());
        let entry = Entry { text: word.to_string(), pinyin: spaced, lm_token: tok };
        self.zh.add(concat.as_str(), entry);
        self.zh_added.insert(tok);
        true
    }

    /// Create or refresh the English arc of `tok` under its lowercase form,
    /// showing the user's preferred casing `best`.
    pub fn set_en_arc(&mut self, tok: u32, lower: &str, best: &str)
        requires
            old(self).wf(),
            is_ascii_seq(lower@),
            old(self).en_m().key_view().len() + 1 < 0xffff_ffffu32,
        ensures
            final(self).wf(),
            final(self).zh_m() == old(self).zh_m(),
            final(self).zh_added() == old(self).zh_added(),
            final(self).en_added() == old(self).en_added().insert(tok),
            final(self).en_surface() == old(self).en_surface().insert(tok, best@),
            final(self).en_m().key_view().len() <= old(self).en_m().key_view().len() + 1,
            if old(self).en_added().contains(tok) {
                final(self).en_m()@ == (if old(self).en_surface().contains_key(tok)
                    && old(self).en_surface()[tok] == best@ {
                    old(self).en_m()@
                } else {
                    set_text_spec(old(self).en_m()@, lower@, tok, best@)
                })
            } else {
                final(self).en_m()@ == add_spec(
                    old(self).en_m()@,
                    lower@,
                    EntryView { text: best@, pinyin: lower@, lm_token: tok },
                )
            },
    {
        if self.en_added.contains(tok) {
            let same = match self.en_surface.get(tok) {
                Some(cur) => str_eq(cur.as_str(), best),
                None => false,
            };
            if !same {
                self.en.set_text(lower, tok, best);
                self.en_surface.insert(tok, best.to_string());
            } else {
                proof {
                    assert(old(self).en_surface().insert(tok, best@) =~= old(self).en_surface());
                }
            }
            proof {
                assert(old(self).en_added().insert(tok) =~= old(self).en_added());
            }
            return;
        }
        let entry = Entry { text: best.to_string(), pinyin: lower.to_string(), lm_token: tok };
        self.en.add(lower, entry);
        self.en_added.insert(tok);
        self.en_surface.insert(tok, best.to_string());
    }
}

} // verus!
