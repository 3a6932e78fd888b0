//! Lattice construction over the key stream.
//!
//! For the current keys three kinds of arcs are laid and one scoring
//! function arbitrates in the decoder (the mixed-input core):
//!   - pinyin arcs: dictionary words whose concatenated toneless pinyin
//!     matches a substring (char arcs guarantee any pinyin stream decodes);
//!   - English word arcs (general vocabulary and the user's own terms);
//!   - fallback arcs: single raw letters, keeping the lattice connected for
//!     arbitrary letter sequences.
//!
//! Beside the exact spellings two more kinds join every position:
//! fuzzy-pinyin arcs (z/zh, c/ch, s/sh and in/ing, en/eng, an/ang read
//! either way, for single characters) and typing-ahead arcs (keys that the
//! typed tail begins but does not finish, ending at the end of the keys).

use vstd::prelude::*;
use vstd::string::StrSliceExecFns;

use crate::tables::{StrIdMap, StrSet};
use crate::interner::{distinct, UNK};
use crate::text::{push_char, string_of, to_chars};

verus! {

broadcast use vstd::string::group_string_axioms;

#[derive(Debug, Clone, Copy, PartialEq, Eq, Structural)]
pub enum ArcKind {
    PyWord,       // multi-char dictionary word via pinyin
    PyChar,       // single hanzi via pinyin
    PyPersonal,   // personal-lexicon Chinese word (OOV in the static dict)
    EnWord,       // general-vocabulary English word
    EnPersonal,   // personal-lexicon English word (user's own terms/casing)
    Fallback,     // single raw letter mid-stream, last resort
    FallbackTail, // raw letter in the unfinished tail (cheap: typing goes on)
}

pub open spec fn is_english_kind(k: ArcKind) -> bool {
    k is EnWord || k is EnPersonal
}

impl ArcKind {
    /// English-word arcs (general or personal).
    pub fn is_english(&self) -> (r: bool)
        ensures
            r == is_english_kind(*self),
    {
        match self {
            ArcKind::EnWord | ArcKind::EnPersonal => true,
            _ => false,
        }
    }
}

/// One word stored under a matcher key.
pub struct Entry {
    /// Surface form emitted when the arc is taken.
    pub text: String,
    /// Space-separated pinyin syllables (for preedit); for English entries
    /// this is just the word itself.
    pub pinyin: String,
    /// Interned LM token (lowercase for English, surface for hanzi).
    pub lm_token: u32,
}

pub struct EntryView {
    pub text: Seq<char>,
    pub pinyin: Seq<char>,
    pub lm_token: u32,
}

impl View for Entry {
    type V = EntryView;

    open spec fn view(&self) -> EntryView {
        EntryView { text: self.text@, pinyin: self.pinyin@, lm_token: self.lm_token }
    }
}

pub open spec fn entries_view(v: Seq<Entry>) -> Seq<EntryView> {
    v.map_values(|e: Entry| e@)
}

/// Only ASCII characters.
pub open spec fn is_ascii_seq(s: Seq<char>) -> bool {
    vstd::utf8::is_ascii_chars(s)
}

/// The matches of a dictionary `m` for the keys starting at `start` and
/// ending no later than `end`: every `e` in `(start, end]` whose substring
/// is a key, in increasing order, with the entries stored under it.
pub open spec fn matches_upto(
    m: Map<Seq<char>, Seq<EntryView>>,
    keys: Seq<char>,
    start: int,
    end: int,
) -> Seq<(int, Seq<EntryView>)>
    decreases end - start,
{
    if end <= start {
        seq![]
    } else {
        let prev = matches_upto(m, keys, start, end - 1);
        if end <= keys.len() && m.contains_key(keys.subrange(start, end)) {
            prev.push((end, m[keys.subrange(start, end)]))
        } else {
            prev
        }
    }
}

/// All matches of `m` over `keys` starting at `start`.
pub open spec fn matches_at(
    m: Map<Seq<char>, Seq<EntryView>>,
    keys: Seq<char>,
    start: int,
) -> Seq<(int, Seq<EntryView>)> {
    matches_upto(m, keys, start, keys.len() as int)
}

/// What `Matcher::add` does to the dictionary.
pub open spec fn add_spec(
    m: Map<Seq<char>, Seq<EntryView>>,
    key: Seq<char>,
    e: EntryView,
) -> Map<Seq<char>, Seq<EntryView>> {
    if key.len() == 0 {
        m
    } else if m.contains_key(key) {
        m.insert(key, m[key].push(e))
    } else {
        m.insert(key, seq![e])
    }
}

/// What `Matcher::set_text` does to the dictionary.
pub open spec fn set_text_spec(
    m: Map<Seq<char>, Seq<EntryView>>,
    key: Seq<char>,
    lm_token: u32,
    text: Seq<char>,
) -> Map<Seq<char>, Seq<EntryView>> {
    if m.contains_key(key) {
        m.insert(
            key,
            m[key].map_values(
                |e: EntryView|
                    if e.lm_token == lm_token {
                        EntryView { text: text, ..e }
                    } else {
                        e
                    },
            ),
        )
    } else {
        m
    }
}

/// Exact-match dictionary with prefix-based early stopping.
///
/// Layout: an Fx hash index from each key to its slot number; the keys,
/// in the order they arrived, and their entry lists, one slot each, in two
/// vectors side by side. Matching, completion and lookup borrow a slot's
/// list as `&[Entry]`; `set_text` edits a slot in place; completion walks
/// the keys in arrival order.
pub struct Matcher {
    /// key -> slot in `keys`/`slots`
    index: StrIdMap,
    keys: Vec<String>,
    slots: Vec<Vec<Entry>>,
    /// every nonempty prefix of every key
    prefixes: StrSet,
    /// the same prefixes, in the order they were first recorded
    prefix_list: Vec<String>,
    max_len: usize,
}

impl View for Matcher {
    type V = Map<Seq<char>, Seq<EntryView>>;

    closed spec fn view(&self) -> Map<Seq<char>, Seq<EntryView>> {
        Map::new(
            |k: Seq<char>| self.index@.contains_key(k),
            |k: Seq<char>| entries_view(self.slots@[self.index@[k] as int]@),
        )
    }
}

impl Matcher {
    pub closed spec fn key_view(&self) -> Seq<Seq<char>> {
        self.keys@.map_values(|s: String| s@)
    }

    pub closed spec fn wf(&self) -> bool {
        &&& self.keys@.len() == self.slots@.len() < 0xffff_ffffu32
        &&& distinct(self.key_view())
        &&& forall|k: Seq<char>| #[trigger] self.index@.contains_key(k) <==> self.key_view().contains(k)
        &&& forall|k: Seq<char>| #[trigger] self.index@.contains_key(k)
            ==> self.index@[k] < self.keys@.len() && self.key_view()[self.index@[k] as int] == k
        &&& forall|k: Seq<char>| #[trigger] self.index@.contains_key(k)
            ==> 0 < k.len() <= self.max_len && is_ascii_seq(k)
        &&& forall|k: Seq<char>, n: int| #[trigger] self.index@.contains_key(k) && 0 < n <= k.len()
            ==> #[trigger] self.prefixes@.contains(k.take(n))
        &&& prefix_pair_ok(self.prefixes@, self.prefix_view())
    }

    /// The recorded key prefixes, each once.
    pub closed spec fn prefix_view(&self) -> Seq<Seq<char>> {
        self.prefix_list@.map_values(|s: String| s@)
    }

    /// The entries of each key, in key order.
    pub closed spec fn slot_view(&self) -> Seq<Seq<EntryView>> {
        self.slots@.map_values(|v: Vec<Entry>| entries_view(v@))
    }

    /// Rough heap usage: each key with 48 bytes of map overhead, each entry
    /// with 40, each recorded prefix with 40.
    pub open spec fn est_spec(&self) -> int {
        bytes_plus(self.key_view(), 48) + slots_bytes(self.slot_view()) + bytes_plus(self.prefix_view(), 40)
    }

    /// Rough heap usage in bytes (`est_spec`, saturating at `usize::MAX`).
    pub fn est_bytes(&self) -> (r: usize)
        requires
            self.wf(),
        ensures
            r == sat(self.est_spec()),
    {
        let mut acc: usize = 0;
        let mut i: usize = 0;
        let ghost kv = self.key_view();
        while i < self.keys.len()
            invariant
                kv == self.key_view(),
                i <= kv.len() == self.keys@.len(),
                acc == sat(bytes_plus(kv.take(i as int), 48)),
            decreases kv.len() - i,
        {
            proof {
                assert(kv.take(i + 1).drop_last() =~= kv.take(i as int));
                assert(kv.take(i + 1).last() == self.keys@[i as int]@);
                lemma_bytes_plus_nonneg(kv.take(i as int), 48);
                lemma_sat_add(bytes_plus(kv.take(i as int), 48), crate::interner::utf8_len(self.keys@[i as int]@) as int);
                lemma_sat_add(bytes_plus(kv.take(i as int), 48) + crate::interner::utf8_len(self.keys@[i as int]@), 48);
            }
            acc = sat_add(sat_add(acc, byte_count(self.keys[i].as_str())), 48);
            i += 1;
        }
        assert(kv.take(i as int) =~= kv);
        let ghost sv = self.slot_view();
        let mut j: usize = 0;
        let ghost a0 = bytes_plus(kv, 48);
        proof {
            lemma_bytes_plus_nonneg(kv, 48);
            assert(sv.take(0) =~= Seq::<Seq<EntryView>>::empty());
        }
        while j < self.slots.len()
            invariant
                sv == self.slot_view(),
                j <= sv.len() == self.slots@.len(),
                a0 >= 0,
                acc == sat(a0 + slots_bytes(sv.take(j as int))),
            decreases sv.len() - j,
        {
            let es = &self.slots[j];
            let ghost ev = entries_view(es@);
            let mut t: usize = 0;
            let ghost base = a0 + slots_bytes(sv.take(j as int));
            proof {
                lemma_slots_bytes_nonneg(sv.take(j as int));
                assert(ev.take(0) =~= Seq::<EntryView>::empty());
            }
            while t < es.len()
                invariant
                    ev == entries_view(es@),
                    t <= ev.len() == es@.len(),
                    base >= 0,
                    acc == sat(base + entries_bytes(ev.take(t as int))),
                decreases ev.len() - t,
            {
                proof {
                    assert(ev.take(t + 1).drop_last() =~= ev.take(t as int));
                    assert(ev.take(t + 1).last() == es@[t as int]@);
                    lemma_entries_bytes_nonneg(ev.take(t as int));
                    let x = base + entries_bytes(ev.take(t as int));
                    let a = crate::interner::utf8_len(es@[t as int].text@) as int;
                    let b = crate::interner::utf8_len(es@[t as int].pinyin@) as int;
                    lemma_sat_add(x, a);
                    lemma_sat_add(x + a, b);
                    lemma_sat_add(x + a + b, 40);
                }
                acc = sat_add(sat_add(sat_add(acc, byte_count(es[t].text.as_str())), byte_count(es[t].pinyin.as_str())), 40);
                t += 1;
            }
            proof {
                assert(ev.take(t as int) =~= ev);
                assert(sv.take(j + 1).drop_last() =~= sv.take(j as int));
                assert(sv.take(j + 1).last() == ev);
            }
            j += 1;
        }
        assert(sv.take(j as int) =~= sv);
        let ghost pv = self.prefix_view();
        let ghost a1 = a0 + slots_bytes(sv);
        let mut k: usize = 0;
        proof {
            lemma_slots_bytes_nonneg(sv);
            assert(pv.take(0) =~= Seq::<Seq<char>>::empty());
        }
        while k < self.prefix_list.len()
            invariant
                pv == self.prefix_view(),
                k <= pv.len() == self.prefix_list@.len(),
                a1 >= 0,
                acc == sat(a1 + bytes_plus(pv.take(k as int), 40)),
            decreases pv.len() - k,
        {
            proof {
                assert(pv.take(k + 1).drop_last() =~= pv.take(k as int));
                assert(pv.take(k + 1).last() == self.prefix_list@[k as int]@);
                lemma_bytes_plus_nonneg(pv.take(k as int), 40);
                let x = a1 + bytes_plus(pv.take(k as int), 40);
                let a = crate::interner::utf8_len(self.prefix_list@[k as int]@) as int;
                lemma_sat_add(x, a);
                lemma_sat_add(x + a, 40);
            }
            acc = sat_add(sat_add(acc, byte_count(self.prefix_list[k].as_str())), 40);
            k += 1;
        }
        assert(pv.take(k as int) =~= pv);
        acc
    }

    pub fn new() -> (m: Self)
        ensures
            m.wf(),
            m@ == Map::<Seq<char>, Seq<EntryView>>::empty(),
            m.key_view().len() == 0,
            m.prefix_view() == Seq::<Seq<char>>::empty(),
            m.slot_view() == Seq::<Seq<EntryView>>::empty(),
            m.est_spec() == 0,
    {
        let m = Matcher {
            index: StrIdMap::new(),
            keys: Vec::new(),
            slots: Vec::new(),
            prefixes: StrSet::new(),
            prefix_list: Vec::new(),
            max_len: 0,
        };
        assert(m.key_view() =~= Seq::<Seq<char>>::empty());
        assert(m.prefix_view() =~= Seq::<Seq<char>>::empty());
        assert(m.slot_view() =~= Seq::<Seq<EntryView>>::empty());
        assert(m@ =~= Map::<Seq<char>, Seq<EntryView>>::empty());
        m
    }

    /// How many keys the matcher holds.
    pub fn key_count(&self) -> (n: usize)
        requires
            self.wf(),
        ensures
            n == self.key_view().len(),
    {
        self.keys.len()
    }

    pub fn add(&mut self, key: &str, entry: Entry)
        requires
            old(self).wf(),
            is_ascii_seq(key@),
            old(self).key_view().len() + 1 < 0xffff_ffffu32,
        ensures
            final(self).wf(),
            final(self)@ == add_spec(old(self)@, key@, entry@),
            final(self).key_view().len() <= old(self).key_view().len() + 1,
            final(self).key_view() == add_keys(old(self).key_view(), key@),
            final(self).slot_view() == add_slots(old(self).key_view(), old(self).slot_view(), key@, entry@),
            final(self).prefix_view() == (if key@.len() == 0 {
                old(self).prefix_view()
            } else {
                prefixes_after(old(self).prefix_view(), key@, 0)
            }),
    {
        if key.is_empty() {
            return;
        }
        let ghost old_view = self@;
        let ghost e = entry@;
        match self.index.get(key) {
            Some(slot) => {
                let ghost before = self.slots@;
                let ghost sv0 = self.slot_view();
                let ghost kv0 = self.key_view();
                let slot = slot as usize;
                self.slots[slot].push(entry);
                proof {
                    let id = crate::interner::id_of(kv0, key@);
                    assert(kv0[slot as int] == key@);
                    assert(kv0.contains(key@));
                    assert(id == slot as int) by {
                        assert(0 <= id < kv0.len() && kv0[id] == key@);
                    }
                    assert(entries_view(self.slots@[slot as int]@) =~= entries_view(before[slot as int]@).push(e));
                    assert(self.slots@.len() == before.len());
                    assert forall|j: int| 0 <= j < sv0.len() implies #[trigger] self.slot_view()[j] == sv0.update(slot as int, sv0[slot as int].push(e))[j] by {
                        if j != slot as int {
                            assert(self.slots@[j] == before[j]);
                        }
                    }
                    assert(self.slot_view() =~= sv0.update(slot as int, sv0[slot as int].push(e)));
                    assert(self@ =~= add_spec(old_view, key@, e)) by {
                        assert(entries_view(self.slots@[slot as int]@) =~= entries_view(before[slot as int]@).push(e));
                        assert forall|k: Seq<char>| self.index@.contains_key(k) && k != key@
                            implies self.index@[k] != slot by {
                        }
                    }
                }
            },
            None => {
                let ghost kv0 = self.key_view();
                let ghost sv0 = self.slot_view();
                let slot = self.keys.len();
                self.keys.push(key.to_owned());
                let mut fresh: Vec<Entry> = Vec::new();
                fresh.push(entry);
                self.slots.push(fresh);
                self.index.insert(key.to_owned(), slot as u32);
                proof {
                    assert(self.key_view() =~= kv0.push(key@));
                    assert(entries_view(self.slots@[slot as int]@) =~= seq![e]);
                    assert(self.slot_view() =~= sv0.push(seq![e]));
                    assert(!kv0.contains(key@));
                    assert forall|k: Seq<char>| #[trigger] self.index@.contains_key(k) <==> self.key_view().contains(k) by {
                        if self.key_view().contains(k) && k != key@ {
                            let j = choose|j: int| 0 <= j < self.key_view().len() && self.key_view()[j] == k;
                            assert(kv0[j] == k);
                            assert(kv0.contains(k));
                        }
                        if k != key@ && self.index@.contains_key(k) {
                            assert(kv0.contains(k));
                            let j = choose|j: int| 0 <= j < kv0.len() && kv0[j] == k;
                            assert(self.key_view()[j] == k);
                        }
                        if k == key@ {
                            assert(self.key_view()[kv0.len() as int] == k);
                        }
                    }
                    assert forall|i: int, j: int| 0 <= i < self.key_view().len() && 0 <= j < self.key_view().len() && i != j
                        implies self.key_view()[i] != self.key_view()[j] by {
                        if i < kv0.len() && j == kv0.len() {
                            assert(kv0.contains(kv0[i]));
                        }
                        if j < kv0.len() && i == kv0.len() {
                            assert(kv0.contains(kv0[j]));
                        }
                    }
                    assert(entries_view(self.slots@[slot as int]@) =~= seq![e]);
                    assert(self@ =~= add_spec(old_view, key@, e));
                }
            },
        }
        let ghost mid_index = self.index@;
        let ghost mid_prefixes = self.prefixes@;
        assert(forall|k: Seq<char>| #[trigger] mid_index.contains_key(k) && k != key@ ==> old_view.contains_key(k));
        add_prefixes(&mut self.prefixes, &mut self.prefix_list, key);
        proof {
            assert forall|k: Seq<char>, m: int| #[trigger] self.index@.contains_key(k) && 0 < m <= k.len()
                implies #[trigger] self.prefixes@.contains(k.take(m)) by {
                if k != key@ {
                    assert(old_view.contains_key(k));
                    assert(mid_prefixes.contains(k.take(m)));
                }
            }
        }
        let n = key.unicode_len();
        if n > self.max_len {
            self.max_len = n;
        }
    }

    /// Every match of the dictionary against `keys[start..end]`, in order of
    /// increasing `end`, with the entries stored under that key.
    pub fn for_matches<'a>(&'a self, keys: &str, start: usize) -> (r: Vec<(usize, &'a [Entry])>)
        requires
            self.wf(),
            is_ascii_seq(keys@),
        ensures
            r@.len() == matches_at(self@, keys@, start as int).len(),
            forall|j: int| 0 <= j < r@.len() ==> {
                &&& (#[trigger] r@[j]).0 == matches_at(self@, keys@, start as int)[j].0
                &&& entries_view(r@[j].1@) == matches_at(self@, keys@, start as int)[j].1
            },
            ms_view(r@) == matches_at(self@, keys@, start as int),
            forall|j: int| 0 <= j < r@.len() ==> start < (#[trigger] r@[j]).0 <= keys@.len(),
    {
        let n = keys.unicode_len();
        let mut out: Vec<(usize, &'a [Entry])> = Vec::new();
        if start >= n {
            proof {
                lemma_matches_empty(self@, keys@, start as int, n as int);
                assert(ms_view(out@) =~= matches_at(self@, keys@, start as int));
            }
            return out;
        }
        let limit = if self.max_len <= n - start { start + self.max_len } else { n };
        let mut done = start;
        proof {
            lemma_matches_empty(self@, keys@, start as int, start as int);
        }
        while done < limit
            invariant
                self.wf(),
                n == keys@.len(),
                is_ascii_seq(keys@),
                start <= done <= limit,
                limit <= n,
                limit == start + self.max_len || limit == n,
                out@.len() == matches_upto(self@, keys@, start as int, done as int).len(),
                forall|j: int| 0 <= j < out@.len() ==> {
                    &&& (#[trigger] out@[j]).0 == matches_upto(self@, keys@, start as int, done as int)[j].0
                    &&& entries_view(out@[j].1@) == matches_upto(self@, keys@, start as int, done as int)[j].1
                },
            decreases limit - done,
        {
            let end = done + 1;
            let sub = keys.substring_ascii(start, end);
            if !self.prefixes.contains(sub) {
                proof {
                    self.lemma_no_longer_match(keys@, start as int, end as int);
                    lemma_matches_stable(self@, keys@, start as int, done as int, n as int);
                    lemma_matches_bounds(self@, keys@, start as int, n as int);
                    assert(ms_view(out@) =~= matches_at(self@, keys@, start as int));
                }
                return out;
            }
            let ghost prev = out@;
            match self.index.get(sub) {
                Some(slot) => {
                    let entries = self.slots[slot as usize].as_slice();
                    out.push((end, entries));
                    proof {
                        assert(self@.contains_key(sub@));
                        assert(self@[sub@] == entries_view(entries@));
                    }
                },
                None => {},
            }
            done = end;
        }
        proof {
            if limit < n {
                self.lemma_beyond_max_len(keys@, start as int, limit as int);
                lemma_matches_stable(self@, keys@, start as int, limit as int, n as int);
            }
            lemma_matches_bounds(self@, keys@, start as int, n as int);
            assert(ms_view(out@) =~= matches_at(self@, keys@, start as int));
        }
        out
    }

    /// A substring that is no key prefix cannot be extended to a key.
    proof fn lemma_no_longer_match(&self, keys: Seq<char>, start: int, end: int)
        requires
            self.wf(),
            0 <= start < end <= keys.len(),
            !self.prefixes@.contains(keys.subrange(start, end)),
        ensures
            forall|e: int| end <= e <= keys.len() ==> !self@.contains_key(#[trigger] keys.subrange(start, e)),
    {
        assert forall|e: int| end <= e <= keys.len() implies !self@.contains_key(#[trigger] keys.subrange(start, e)) by {
            let k = keys.subrange(start, e);
            if self.index@.contains_key(k) {
                assert(k.take(end - start) =~= keys.subrange(start, end));
                assert(self.prefixes@.contains(k.take(end - start)));
            }
        }
    }

    /// Substrings longer than every key are no keys.
    proof fn lemma_beyond_max_len(&self, keys: Seq<char>, start: int, limit: int)
        requires
            self.wf(),
            0 <= start <= limit <= keys.len(),
            limit == start + self.max_len,
        ensures
            forall|e: int| limit < e <= keys.len() ==> !self@.contains_key(#[trigger] keys.subrange(start, e)),
    {
    }

    /// The entries stored under `key`, if it is a key.
    pub fn lookup<'a>(&'a self, key: &str) -> (r: Option<&'a [Entry]>)
        requires
            self.wf(),
        ensures
            r is Some <==> self@.contains_key(key@),
            r matches Some(es) ==> entries_view(es@) == self@[key@],
    {
        match self.index.get(key) {
            Some(slot) => Some(self.slots[slot as usize].as_slice()),
            None => None,
        }
    }

    /// The entry lists of every key that `t` strictly begins, in key order
    /// (what typing ahead from `t` can reach).
    pub fn completions<'a>(&'a self, t: &str) -> (r: Vec<&'a [Entry]>)
        requires
            self.wf(),
            t@.len() > 0,
        ensures
            r@.map_values(|es: &'a [Entry]| entries_view(es@)) == completion_slots(self.key_view(), self.slot_view(), t@),
    {
        let mut out: Vec<&'a [Entry]> = Vec::new();
        if !self.prefixes.contains(t) {
            proof {
                self.lemma_no_completion(t@);
                assert(out@.map_values(|es: &'a [Entry]| entries_view(es@)) =~= Seq::<Seq<EntryView>>::empty());
            }
            return out;
        }
        let tc = to_chars(t);
        let ghost kv = self.key_view();
        let ghost sv = self.slot_view();
        let mut j: usize = 0;
        while j < self.keys.len()
            invariant
                self.wf(),
                kv == self.key_view(),
                sv == self.slot_view(),
                tc@ == t@,
                j <= kv.len() == self.keys@.len() == self.slots@.len(),
                out@.map_values(|es: &'a [Entry]| entries_view(es@)) == completion_slots(kv.take(j as int), sv, t@),
            decreases kv.len() - j,
        {
            let ghost prev = out@;
            let hit = strictly_begins(&tc, self.keys[j].as_str());
            if hit {
                out.push(self.slots[j].as_slice());
            }
            proof {
                assert(kv.take(j + 1).drop_last() =~= kv.take(j as int));
                assert(kv.take(j + 1).last() == kv[j as int]);
                assert(kv[j as int] == self.keys@[j as int]@);
                if hit {
                    assert(sv[j as int] == entries_view(self.slots@[j as int]@));
                    assert(out@.map_values(|es: &'a [Entry]| entries_view(es@))
                        =~= prev.map_values(|es: &'a [Entry]| entries_view(es@)).push(sv[j as int]));
                }
            }
            j += 1;
        }
        assert(kv.take(kv.len() as int) =~= kv);
        out
    }

    /// A nonempty `t` that is no recorded prefix begins no key.
    proof fn lemma_no_completion(&self, t: Seq<char>)
        requires
            self.wf(),
            t.len() > 0,
            !self.prefixes@.contains(t),
        ensures
            completion_slots(self.key_view(), self.slot_view(), t) == Seq::<Seq<EntryView>>::empty(),
    {
        let kv = self.key_view();
        assert forall|j: int| 0 <= j < kv.len() implies !is_strict_prefix(t, #[trigger] kv[j]) by {
            if is_strict_prefix(t, kv[j]) {
                assert(kv.contains(kv[j]));
                assert(self.index@.contains_key(kv[j]));
                assert(self.prefixes@.contains(kv[j].take(t.len() as int)));
            }
        }
        lemma_completion_slots_empty(kv, self.slot_view(), t);
    }

    /// Update the surface form of existing entries (the personal layer
    /// tracks the user's preferred casing, which can change over time).
    pub fn set_text(&mut self, key: &str, lm_token: u32, text: &str)
        requires
            old(self).wf(),
        ensures
            final(self).wf(),
            final(self)@ == set_text_spec(old(self)@, key@, lm_token, text@),
            final(self).key_view() == old(self).key_view(),
    {
        let ghost old_view = self@;
        match self.index.get(key) {
            Some(slot) => {
                let slot = slot as usize;
                let mut v: Vec<Entry> = Vec::new();
                std::mem::swap(&mut v, &mut self.slots[slot]);
                let ghost orig = v@;
                let mut i: usize = 0;
                while i < v.len()
                    invariant
                        v@.len() == orig.len(),
                        0 <= i <= v@.len(),
                        forall|j: int| i <= j < v@.len() ==> #[trigger] v@[j] == orig[j],
                        forall|j: int| 0 <= j < i ==> (#[trigger] v@[j])@ == (
                            if orig[j].lm_token == lm_token {
                                EntryView { text: text@, ..orig[j]@ }
                            } else {
                                orig[j]@
                            }),
                    decreases v@.len() - i,
                {
                    if v[i].lm_token == lm_token {
                        v[i].text = text.to_owned();
                    }
                    i += 1;
                }
                self.slots.set(slot, v);
                proof {
                    assert(entries_view(self.slots@[slot as int]@) =~= old_view[key@].map_values(
                        |e: EntryView|
                            if e.lm_token == lm_token {
                                EntryView { text: text@, ..e }
                            } else {
                                e
                            },
                    ));
                    assert forall|k: Seq<char>| self.index@.contains_key(k) && k != key@
                        implies self.index@[k] != slot by {
                    }
                    assert(self@ =~= set_text_spec(old_view, key@, lm_token, text@));
                }
            },
            None => {
                assert(self@ =~= set_text_spec(old_view, key@, lm_token, text@));
            },
        }
    }
}


/// One lattice arc; borrows surfaces from the dictionaries and the keys.
pub struct Arc<'a> {
    pub end: usize,
    pub text: &'a str,
    /// Space-separated syllables (pinyin arcs) or raw letters (en/fallback).
    pub pinyin: &'a str,
    pub lm_token: u32,
    pub kind: ArcKind,
    /// Typing-ahead arc: its key runs past what was typed.
    pub completed: bool,
    /// For typing-ahead arcs: how many keys of the reading were typed.
    pub typed_len: u16,
    /// Fuzzy-pinyin arc: its key is a near spelling of the typed syllable.
    pub fuzzy: bool,
}

pub struct ArcView {
    pub end: int,
    pub text: Seq<char>,
    pub pinyin: Seq<char>,
    pub lm_token: u32,
    pub kind: ArcKind,
    pub completed: bool,
    pub typed_len: u16,
    pub fuzzy: bool,
}

impl<'a> View for Arc<'a> {
    type V = ArcView;

    open spec fn view(&self) -> ArcView {
        ArcView {
            end: self.end as int,
            text: self.text@,
            pinyin: self.pinyin@,
            lm_token: self.lm_token,
            kind: self.kind,
            completed: self.completed,
            typed_len: self.typed_len,
            fuzzy: self.fuzzy,
        }
    }
}

pub open spec fn arcs_view<'a>(v: Seq<Arc<'a>>) -> Seq<ArcView> {
    v.map_values(|a: Arc<'a>| a@)
}

/// The arcs laid for a sequence of matches starting at `start`: one per
/// entry, in match order. English arcs show the typed letters as their
/// reading (`keys_reading`), pinyin arcs the entry's spaced syllables.
pub open spec fn arcs_of(
    ms: Seq<(int, Seq<EntryView>)>,
    kind: ArcKind,
    keys: Seq<char>,
    start: int,
    keys_reading: bool,
) -> Seq<ArcView>
    decreases ms.len(),
{
    if ms.len() == 0 {
        seq![]
    } else {
        let (end, es) = ms.last();
        arcs_of(ms.drop_last(), kind, keys, start, keys_reading) + entry_arcs(es, end, kind, keys, start, keys_reading)
    }
}

/// The arcs for the entries stored under one key ending at `end`.
pub open spec fn entry_arcs(
    es: Seq<EntryView>,
    end: int,
    kind: ArcKind,
    keys: Seq<char>,
    start: int,
    keys_reading: bool,
) -> Seq<ArcView> {
    es.map_values(
        |e: EntryView|
            ArcView {
                end: end,
                text: e.text,
                pinyin: if keys_reading { keys.subrange(start, end) } else { e.pinyin },
                lm_token: e.lm_token,
                kind: kind,
                completed: false,
                typed_len: 0,
                fuzzy: false,
            },
    )
}

/// A general English arc is shadowed by a personal English arc over the
/// same span with the same token (the user's own casing wins).
pub open spec fn shadowed(personal_en: Seq<ArcView>, a: ArcView) -> bool {
    exists|j: int| 0 <= j < personal_en.len() && (#[trigger] personal_en[j]).end == a.end
        && personal_en[j].lm_token == a.lm_token
}

/// `v` without the arcs shadowed by `personal_en`, order kept.
pub open spec fn unshadowed(v: Seq<ArcView>, personal_en: Seq<ArcView>) -> Seq<ArcView>
    decreases v.len(),
{
    if v.len() == 0 {
        seq![]
    } else {
        let rest = unshadowed(v.drop_last(), personal_en);
        if shadowed(personal_en, v.last()) {
            rest
        } else {
            rest.push(v.last())
        }
    }
}

/// Views of the two personal matchers, if any.
pub open spec fn personal_view<'p>(p: Option<PersonalMatchers<'p>>) -> Option<
    (Map<Seq<char>, Seq<EntryView>>, Map<Seq<char>, Seq<EntryView>>),
> {
    match p {
        Some(p) => Some((p.zh@, p.en@)),
        None => None,
    }
}

/// Personal-layer matchers joining the lattice.
#[derive(Clone, Copy)]
pub struct PersonalMatchers<'p> {
    pub zh: &'p Matcher,
    pub en: &'p Matcher,
}

pub struct LatticeBuilder {
    pub char_matcher: Matcher,
    pub word_matcher: Matcher,
    pub en_matcher: Matcher,
    /// Interned ids for single letters a-z (fallback arcs), index = letter - 'a'.
    pub letter_tokens: [u32; 26],
}

impl LatticeBuilder {
    pub open spec fn wf(&self) -> bool {
        &&& self.char_matcher.wf()
        &&& self.word_matcher.wf()
        &&& self.en_matcher.wf()
    }

    /// The single raw-letter arc at `i`.
    pub open spec fn fallback_arc(&self, keys: Seq<char>, i: int) -> ArcView {
        let c = keys[i];
        ArcView {
            end: i + 1,
            text: keys.subrange(i, i + 1),
            pinyin: keys.subrange(i, i + 1),
            lm_token: if 'a' <= c && c <= 'z' {
                self.letter_tokens@[(c as int) - ('a' as int)]
            } else {
                UNK
            },
            kind: ArcKind::Fallback,
            completed: false,
            typed_len: 0,
            fuzzy: false,
        }
    }

    /// The personal English arcs at `i`.
    pub open spec fn personal_en_arcs(
        &self,
        keys: Seq<char>,
        personal: Option<(Map<Seq<char>, Seq<EntryView>>, Map<Seq<char>, Seq<EntryView>>)>,
        i: int,
    ) -> Seq<ArcView> {
        match personal {
            Some((_, en)) => arcs_of(matches_at(en, keys, i), ArcKind::EnPersonal, keys, i, true),
            None => seq![],
        }
    }

    /// The arcs laid at `i` before the unfinished tail is marked: char arcs,
    /// word arcs, personal Chinese arcs, personal English arcs, then the
    /// unshadowed general English arcs; a single fallback letter when none.
    pub open spec fn raw_arcs(
        &self,
        keys: Seq<char>,
        personal: Option<(Map<Seq<char>, Seq<EntryView>>, Map<Seq<char>, Seq<EntryView>>)>,
        i: int,
    ) -> Seq<ArcView> {
        let chars = arcs_of(matches_at(self.char_matcher@, keys, i), ArcKind::PyChar, keys, i, false);
        let words = arcs_of(matches_at(self.word_matcher@, keys, i), ArcKind::PyWord, keys, i, false);
        let pzh = match personal {
            Some((zh, _)) => arcs_of(matches_at(zh, keys, i), ArcKind::PyPersonal, keys, i, false),
            None => seq![],
        };
        let pen = self.personal_en_arcs(keys, personal, i);
        let en = unshadowed(
            arcs_of(matches_at(self.en_matcher@, keys, i), ArcKind::EnWord, keys, i, true),
            pen,
        );
        let all = chars + words + pzh + pen + en;
        if all.len() == 0 {
            seq![self.fallback_arc(keys, i)]
        } else {
            all
        }
    }

    /// Every arc at `q` is a mid-stream fallback letter.
    pub open spec fn all_fallback(
        &self,
        keys: Seq<char>,
        personal: Option<(Map<Seq<char>, Seq<EntryView>>, Map<Seq<char>, Seq<EntryView>>)>,
        q: int,
    ) -> bool {
        forall|j: int| 0 <= j < self.raw_arcs(keys, personal, q).len()
            ==> (#[trigger] self.raw_arcs(keys, personal, q)[j]).kind == ArcKind::Fallback
    }

    /// `p` lies in the maximal all-fallback suffix: the unfinished tail.
    pub open spec fn in_tail(
        &self,
        keys: Seq<char>,
        personal: Option<(Map<Seq<char>, Seq<EntryView>>, Map<Seq<char>, Seq<EntryView>>)>,
        p: int,
    ) -> bool {
        forall|q: int| p <= q < keys.len() ==> #[trigger] self.all_fallback(keys, personal, q)
    }

    /// The arcs at `p` from exact spellings: tail letters are cheap
    /// `FallbackTail` arcs, everything else as laid.
    pub open spec fn exact_arcs(
        &self,
        keys: Seq<char>,
        personal: Option<(Map<Seq<char>, Seq<EntryView>>, Map<Seq<char>, Seq<EntryView>>)>,
        p: int,
    ) -> Seq<ArcView> {
        if self.in_tail(keys, personal, p) {
            self.raw_arcs(keys, personal, p).map_values(
                |a: ArcView| ArcView { kind: ArcKind::FallbackTail, ..a },
            )
        } else {
            self.raw_arcs(keys, personal, p)
        }
    }

    /// The typing-ahead arcs at `i`: keys that the typed tail `keys[i..]`
    /// strictly begins, from the character dictionary, and, once the tail
    /// has `MIN_WORD_COMPLETION` keys, from the word dictionary, the
    /// personal Chinese and English words and the English vocabulary.
    pub open spec fn completion_arcs<'p>(&self, keys: Seq<char>, personal: Option<PersonalMatchers<'p>>, i: int) -> Seq<ArcView> {
        let n = keys.len() as int;
        let t = keys.subrange(i, n);
        let chars = matcher_completions(&self.char_matcher, t, ArcKind::PyChar, n);
        if t.len() < MIN_WORD_COMPLETION {
            chars
        } else {
            let words = matcher_completions(&self.word_matcher, t, ArcKind::PyWord, n);
            let mine = match personal {
                Some(p) => matcher_completions(p.zh, t, ArcKind::PyPersonal, n) + matcher_completions(
                    p.en,
                    t,
                    ArcKind::EnPersonal,
                    n,
                ),
                None => seq![],
            };
            chars + words + mine + matcher_completions(&self.en_matcher, t, ArcKind::EnWord, n)
        }
    }

    /// The fuzzy-pinyin arcs at `i`: character entries whose key is a
    /// fuzzy variant of a typed substring starting at `i`.
    pub open spec fn fuzzy_arcs(&self, keys: Seq<char>, i: int) -> Seq<ArcView> {
        fuzzy_upto(self.char_matcher@, keys, i, keys.len() as int)
    }

    /// The arcs at `p` of the finished lattice: those from exact spellings,
    /// then the fuzzy arcs, then the typing-ahead arcs.
    pub open spec fn lattice_arcs<'p>(&self, keys: Seq<char>, personal: Option<PersonalMatchers<'p>>, p: int) -> Seq<ArcView> {
        self.exact_arcs(keys, personal_view(personal), p) + self.fuzzy_arcs(keys, p) + self.completion_arcs(keys, personal, p)
    }

    /// Arcs grouped by start position; every position is covered.
    /// `keys` must be ASCII (the IME segment is always a-z in practice).
    /// `personal` adds the user's own words: personal English arcs shadow
    /// same-span general ones with the same token; personal Chinese words
    /// are dict-OOV by construction, so no dedup is needed there.
    pub fn build<'a>(&'a self, keys: &'a str, personal: Option<PersonalMatchers<'a>>) -> (arcs: Vec<Vec<Arc<'a>>>)
        requires
            self.wf(),
            is_ascii_seq(keys@),
            personal matches Some(p) ==> p.zh.wf() && p.en.wf(),
        ensures
            arcs@.len() == keys@.len(),
            forall|p: int| 0 <= p < arcs@.len()
                ==> arcs_view(#[trigger] arcs@[p]@) == self.lattice_arcs(keys@, personal, p),
    {
        let chars = to_chars(keys);
        let n = chars.len();
        let ghost pv = personal_view(personal);
        let mut arcs: Vec<Vec<Arc<'a>>> = Vec::new();
        let mut i: usize = 0;
        while i < n
            invariant
                self.wf(),
                is_ascii_seq(keys@),
                personal matches Some(p) ==> p.zh.wf() && p.en.wf(),
                pv == personal_view(personal),
                chars@ == keys@,
                n == keys@.len(),
                i <= n,
                arcs@.len() == i,
                forall|p: int| 0 <= p < i ==> arcs_view(#[trigger] arcs@[p]@) == self.raw_arcs(keys@, pv, p),
            decreases n - i,
        {
            let mut out: Vec<Arc<'a>> = Vec::new();
            let ms = self.char_matcher.for_matches(keys, i);
            push_arcs(&mut out, &ms, ArcKind::PyChar, keys, i, false);
            let ms = self.word_matcher.for_matches(keys, i);
            push_arcs(&mut out, &ms, ArcKind::PyWord, keys, i, false);
            let ghost before_personal = arcs_view(out@);
            let mut seen_en: Vec<(usize, u32)> = Vec::new();
            if let Some(p) = personal {
                let ms = p.zh.for_matches(keys, i);
                push_arcs(&mut out, &ms, ArcKind::PyPersonal, keys, i, false);
                let ghost mid = arcs_view(out@);
                let mid_len = out.len();
                let ms = p.en.for_matches(keys, i);
                push_arcs(&mut out, &ms, ArcKind::EnPersonal, keys, i, true);
                let mut k: usize = mid_len;
                while k < out.len()
                    invariant
                        mid_len == mid.len(),
                        mid.len() <= k <= out@.len(),
                        seen_en@.len() == k - mid.len(),
                        forall|j: int| 0 <= j < seen_en@.len() ==> (#[trigger] seen_en@[j]).0 == out@[mid.len() + j].end
                            && seen_en@[j].1 == out@[mid.len() + j].lm_token,
                    decreases out@.len() - k,
                {
                    seen_en.push((out[k].end, out[k].lm_token));
                    k += 1;
                }
                proof {
                    let pen = arcs_view(out@).subrange(mid.len() as int, out@.len() as int);
                    assert(pen =~= self.personal_en_arcs(keys@, pv, i as int));
                }
            }
            let ghost pen = self.personal_en_arcs(keys@, pv, i as int);
            let ghost before_en = arcs_view(out@);
            let ms = self.en_matcher.for_matches(keys, i);
            push_unshadowed(&mut out, &ms, keys, i, &seen_en, Ghost(pen));
            if out.len() == 0 {
                let c = chars[i];
                let lm_token = if 'a' <= c && c <= 'z' {
                    self.letter_tokens[(c as u32 - 'a' as u32) as usize]
                } else {
                    UNK
                };
                let raw = keys.substring_ascii(i, i + 1);
                out.push(Arc {
                    end: i + 1,
                    text: raw,
                    pinyin: raw,
                    lm_token,
                    kind: ArcKind::Fallback,
                    completed: false,
                    typed_len: 0,
                    fuzzy: false,
                });
            }
            proof {
                let ii = i as int;
                let c_arcs = arcs_of(matches_at(self.char_matcher@, keys@, ii), ArcKind::PyChar, keys@, ii, false);
                let w_arcs = arcs_of(matches_at(self.word_matcher@, keys@, ii), ArcKind::PyWord, keys@, ii, false);
                let pzh = match pv {
                    Some((zh, _)) => arcs_of(matches_at(zh, keys@, ii), ArcKind::PyPersonal, keys@, ii, false),
                    None => seq![],
                };
                let en = unshadowed(arcs_of(matches_at(self.en_matcher@, keys@, ii), ArcKind::EnWord, keys@, ii, true), pen);
                assert(before_personal == c_arcs + w_arcs);
                assert(before_en == c_arcs + w_arcs + pzh + pen);
                assert(arcs_view(out@) =~= self.raw_arcs(keys@, pv, i as int));
            }
            arcs.push(out);
            i += 1;
        }
        // The maximal all-fallback suffix is an unfinished pinyin tail (the
        // user is still typing): those letters stay raw cheaply instead of
        // being force-read as junk short English words or odd char splits.
        let mut pos = n;
        let mut stop = false;
        while pos > 0 && !stop
            invariant
                pos <= n == arcs@.len() == keys@.len(),
                self.in_tail(keys@, pv, pos as int),
                stop ==> forall|p: int| 0 <= p < pos ==> !#[trigger] self.in_tail(keys@, pv, p),
                forall|p: int| 0 <= p < pos ==> arcs_view(#[trigger] arcs@[p]@) == self.raw_arcs(keys@, pv, p),
                forall|p: int| pos <= p < n ==> arcs_view(#[trigger] arcs@[p]@) == self.exact_arcs(keys@, pv, p),
            decreases (if stop { 0int } else { pos + 1 }),
        {
            let q = pos - 1;
            if !all_fallback_arcs(&arcs[q]) {
                proof {
                    let j = choose|j: int| 0 <= j < arcs@[q as int]@.len() && (#[trigger] arcs@[q as int]@[j]).kind != ArcKind::Fallback;
                    assert(arcs_view(arcs@[q as int]@)[j] == arcs@[q as int]@[j]@);
                    assert(self.raw_arcs(keys@, pv, q as int)[j].kind != ArcKind::Fallback);
                    assert(!self.all_fallback(keys@, pv, q as int));
                    assert forall|p: int| 0 <= p < pos implies !#[trigger] self.in_tail(keys@, pv, p) by {
                        assert(!self.all_fallback(keys@, pv, q as int));
                    }
                }
                stop = true;
            } else {
            let mut v: Vec<Arc<'a>> = Vec::new();
            std::mem::swap(&mut v, &mut arcs[q]);
            let ghost orig = v@;
            let mut j: usize = 0;
            while j < v.len()
                invariant
                    j <= v@.len() == orig.len(),
                    forall|t: int| j <= t < v@.len() ==> #[trigger] v@[t] == orig[t],
                    forall|t: int| 0 <= t < j ==> (#[trigger] v@[t])@ == (ArcView { kind: ArcKind::FallbackTail, ..orig[t]@ }),
                decreases v@.len() - j,
            {
                v[j].kind = ArcKind::FallbackTail;
                j += 1;
            }
            proof {
                assert forall|t: int| q < t < n implies #[trigger] self.all_fallback(keys@, pv, t) by {
                    assert(self.in_tail(keys@, pv, pos as int));
                }
                assert(self.in_tail(keys@, pv, q as int));
                assert(arcs_view(v@) =~= self.exact_arcs(keys@, pv, q as int));
            }
            arcs.set(q, v);
            pos = q;
            }
        }
        proof {
            assert forall|p: int| 0 <= p < arcs@.len()
                implies arcs_view(#[trigger] arcs@[p]@) == self.exact_arcs(keys@, pv, p) by {
                if p < pos {
                    assert(!self.in_tail(keys@, pv, p));
                }
            }
        }
        // Fuzzy spellings and typing ahead join every position.
        let mut i: usize = 0;
        while i < n
            invariant
                self.wf(),
                is_ascii_seq(keys@),
                personal matches Some(p) ==> p.zh.wf() && p.en.wf(),
                pv == personal_view(personal),
                n == keys@.len() == arcs@.len(),
                i <= n,
                forall|p: int| 0 <= p < i ==> arcs_view(#[trigger] arcs@[p]@) == self.lattice_arcs(keys@, personal, p),
                forall|p: int| i <= p < n ==> arcs_view(#[trigger] arcs@[p]@) == self.exact_arcs(keys@, pv, p),
            decreases n - i,
        {
            let mut v: Vec<Arc<'a>> = Vec::new();
            std::mem::swap(&mut v, &mut arcs[i]);
            self.push_beyond_exact(&mut v, keys, personal, i);
            proof {
                assert(arcs_view(v@) =~= self.lattice_arcs(keys@, personal, i as int));
            }
            arcs.set(i, v);
            i += 1;
        }
        arcs
    }

    /// Append the fuzzy and the typing-ahead arcs at `i`.
    fn push_beyond_exact<'a>(&'a self, v: &mut Vec<Arc<'a>>, keys: &'a str, personal: Option<PersonalMatchers<'a>>, i: usize)
        requires
            self.wf(),
            is_ascii_seq(keys@),
            personal matches Some(p) ==> p.zh.wf() && p.en.wf(),
            i < keys@.len(),
        ensures
            arcs_view(final(v)@) == arcs_view(old(v)@) + self.fuzzy_arcs(keys@, i as int) + self.completion_arcs(
                keys@,
                personal,
                i as int,
            ),
    {
        let n = keys.unicode_len();
        push_fuzzy(v, &self.char_matcher, keys, i);
        let ghost with_fuzzy = arcs_view(v@);
        let t = keys.substring_ascii(i, n);
        let ghost tv = keys@.subrange(i as int, n as int);
        push_completions(v, &self.char_matcher, t, ArcKind::PyChar, n);
        if n - i >= MIN_WORD_COMPLETION {
            push_completions(v, &self.word_matcher, t, ArcKind::PyWord, n);
            let ghost with_words = arcs_view(v@);
            if let Some(p) = personal {
                push_completions(v, p.zh, t, ArcKind::PyPersonal, n);
                push_completions(v, p.en, t, ArcKind::EnPersonal, n);
            }
            let ghost with_mine = arcs_view(v@);
            push_completions(v, &self.en_matcher, t, ArcKind::EnWord, n);
            proof {
                let nn = n as int;
                let chars = matcher_completions(&self.char_matcher, tv, ArcKind::PyChar, nn);
                let words = matcher_completions(&self.word_matcher, tv, ArcKind::PyWord, nn);
                let mine = match personal {
                    Some(p) => matcher_completions(p.zh, tv, ArcKind::PyPersonal, nn) + matcher_completions(
                        p.en,
                        tv,
                        ArcKind::EnPersonal,
                        nn,
                    ),
                    None => seq![],
                };
                let en = matcher_completions(&self.en_matcher, tv, ArcKind::EnWord, nn);
                assert(with_mine =~= with_words + mine);
                assert(arcs_view(v@) =~= with_fuzzy + (chars + words + mine + en));
            }
        }
    }
}

/// Whether every arc is a mid-stream fallback letter.
fn all_fallback_arcs<'a>(v: &Vec<Arc<'a>>) -> (r: bool)
    ensures
        r == forall|j: int| 0 <= j < v@.len() ==> (#[trigger] v@[j]).kind == ArcKind::Fallback,
{
    let mut j: usize = 0;
    while j < v.len()
        invariant
            j <= v@.len(),
            forall|t: int| 0 <= t < j ==> (#[trigger] v@[t]).kind == ArcKind::Fallback,
        decreases v@.len() - j,
    {
        if v[j].kind != ArcKind::Fallback {
            return false;
        }
        j += 1;
    }
    true
}


/// Every arc of `v` ends after `start` and within `n` keys.
pub open spec fn ends_within(v: Seq<ArcView>, start: int, n: int) -> bool {
    forall|j: int| 0 <= j < v.len() ==> start < (#[trigger] v[j]).end <= n
}

pub proof fn lemma_arcs_of_ends(ms: Seq<(int, Seq<EntryView>)>, kind: ArcKind, keys: Seq<char>, start: int, kr: bool)
    requires
        forall|j: int| 0 <= j < ms.len() ==> start < (#[trigger] ms[j]).0 <= keys.len(),
    ensures
        ends_within(arcs_of(ms, kind, keys, start, kr), start, keys.len() as int),
    decreases ms.len(),
{
    if ms.len() > 0 {
        lemma_arcs_of_ends(ms.drop_last(), kind, keys, start, kr);
        let (end, es) = ms.last();
        let a = arcs_of(ms.drop_last(), kind, keys, start, kr);
        let b = entry_arcs(es, end, kind, keys, start, kr);
        assert(ms[ms.len() - 1].0 == end);
        assert forall|j: int| 0 <= j < (a + b).len() implies start < (#[trigger] (a + b)[j]).end <= keys.len() by {
            if j >= a.len() {
                assert((a + b)[j] == b[j - a.len()]);
            } else {
                assert((a + b)[j] == a[j]);
            }
        }
    }
}

pub proof fn lemma_unshadowed_ends(v: Seq<ArcView>, pe: Seq<ArcView>, start: int, n: int)
    requires
        ends_within(v, start, n),
    ensures
        ends_within(unshadowed(v, pe), start, n),
    decreases v.len(),
{
    if v.len() > 0 {
        assert(ends_within(v.drop_last(), start, n)) by {
            assert forall|j: int| 0 <= j < v.drop_last().len() implies start < (#[trigger] v.drop_last()[j]).end <= n by {
                assert(v.drop_last()[j] == v[j]);
            }
        }
        lemma_unshadowed_ends(v.drop_last(), pe, start, n);
        assert(v.last() == v[v.len() - 1]);
    }
}

pub proof fn lemma_concat_ends(a: Seq<ArcView>, b: Seq<ArcView>, start: int, n: int)
    requires
        ends_within(a, start, n),
        ends_within(b, start, n),
    ensures
        ends_within(a + b, start, n),
{
    assert forall|j: int| 0 <= j < (a + b).len() implies start < (#[trigger] (a + b)[j]).end <= n by {
        if j >= a.len() {
            assert((a + b)[j] == b[j - a.len()]);
        } else {
            assert((a + b)[j] == a[j]);
        }
    }
}

/// The arcs from exact spellings at `p`: at least one, each moving forward.
pub proof fn lemma_exact_connected(
    b: LatticeBuilder,
    keys: Seq<char>,
    personal: Option<(Map<Seq<char>, Seq<EntryView>>, Map<Seq<char>, Seq<EntryView>>)>,
    p: int,
)
    requires
        0 <= p < keys.len(),
    ensures
        b.exact_arcs(keys, personal, p).len() > 0,
        ends_within(b.exact_arcs(keys, personal, p), p, keys.len() as int),
{
    let n = keys.len() as int;
    lemma_matches_bounds(b.char_matcher@, keys, p, n);
    lemma_matches_bounds(b.word_matcher@, keys, p, n);
    lemma_matches_bounds(b.en_matcher@, keys, p, n);
    lemma_arcs_of_ends(matches_at(b.char_matcher@, keys, p), ArcKind::PyChar, keys, p, false);
    lemma_arcs_of_ends(matches_at(b.word_matcher@, keys, p), ArcKind::PyWord, keys, p, false);
    let pzh = match personal {
        Some((zh, _)) => arcs_of(matches_at(zh, keys, p), ArcKind::PyPersonal, keys, p, false),
        None => seq![],
    };
    match personal {
        Some((zh, en)) => {
            lemma_matches_bounds(zh, keys, p, n);
            lemma_matches_bounds(en, keys, p, n);
            lemma_arcs_of_ends(matches_at(zh, keys, p), ArcKind::PyPersonal, keys, p, false);
            lemma_arcs_of_ends(matches_at(en, keys, p), ArcKind::EnPersonal, keys, p, true);
        },
        None => {},
    }
    let pen = b.personal_en_arcs(keys, personal, p);
    let en_all = arcs_of(matches_at(b.en_matcher@, keys, p), ArcKind::EnWord, keys, p, true);
    lemma_arcs_of_ends(matches_at(b.en_matcher@, keys, p), ArcKind::EnWord, keys, p, true);
    lemma_unshadowed_ends(en_all, pen, p, n);
    let chars = arcs_of(matches_at(b.char_matcher@, keys, p), ArcKind::PyChar, keys, p, false);
    let words = arcs_of(matches_at(b.word_matcher@, keys, p), ArcKind::PyWord, keys, p, false);
    lemma_concat_ends(chars, words, p, n);
    lemma_concat_ends(chars + words, pzh, p, n);
    lemma_concat_ends(chars + words + pzh, pen, p, n);
    lemma_concat_ends(chars + words + pzh + pen, unshadowed(en_all, pen), p, n);
    let raw = b.raw_arcs(keys, personal, p);
    assert(raw.len() > 0);
    assert(ends_within(raw, p, n));
    let arcs = b.exact_arcs(keys, personal, p);
    if b.in_tail(keys, personal, p) {
        assert forall|j: int| 0 <= j < arcs.len() implies p < (#[trigger] arcs[j]).end <= n by {
            assert(arcs[j].end == raw[j].end);
        }
    }
}

pub proof fn lemma_tagged_ends(es: Seq<EntryView>, end: int, kind: ArcKind, c: bool, typed: u16, f: bool, start: int, n: int)
    requires
        start < end <= n,
    ensures
        ends_within(tagged_arcs(es, end, kind, c, typed, f), start, n),
{
}

pub proof fn lemma_completion_ends(slots: Seq<Seq<EntryView>>, kind: ArcKind, end: int, typed: u16, start: int, n: int)
    requires
        start < end <= n,
    ensures
        ends_within(completion_arcs_of(slots, kind, end, typed), start, n),
    decreases slots.len(),
{
    if slots.len() > 0 {
        lemma_completion_ends(slots.drop_last(), kind, end, typed, start, n);
        lemma_concat_ends(
            completion_arcs_of(slots.drop_last(), kind, end, typed),
            tagged_arcs(slots.last(), end, kind, true, typed, false),
            start,
            n,
        );
    }
}

pub proof fn lemma_fuzzy_ends(m: Map<Seq<char>, Seq<EntryView>>, keys: Seq<char>, start: int, end: int)
    requires
        end <= keys.len(),
    ensures
        ends_within(fuzzy_upto(m, keys, start, end), start, keys.len() as int),
    decreases end - start,
{
    if end > start {
        let n = keys.len() as int;
        let s = keys.subrange(start, end);
        lemma_fuzzy_ends(m, keys, start, end - 1);
        let a = variant_arcs(m, fuzzy_initial(s), end);
        let b = variant_arcs(m, fuzzy_final(s), end);
        assert(ends_within(a, start, n));
        assert(ends_within(b, start, n));
        lemma_concat_ends(fuzzy_upto(m, keys, start, end - 1), a, start, n);
        lemma_concat_ends(fuzzy_upto(m, keys, start, end - 1) + a, b, start, n);
    }
}

/// The lattice is always connected: every key position starts at least
/// one arc, and every arc, exact, fuzzy or typing ahead, moves forward,
/// ending after its start and within the keys.
pub proof fn law_lattice_connected<'p>(
    b: LatticeBuilder,
    keys: Seq<char>,
    personal: Option<PersonalMatchers<'p>>,
    p: int,
)
    requires
        0 <= p < keys.len(),
    ensures
        b.lattice_arcs(keys, personal, p).len() > 0,
        ends_within(b.lattice_arcs(keys, personal, p), p, keys.len() as int),
{
    let n = keys.len() as int;
    let t = keys.subrange(p, n);
    lemma_exact_connected(b, keys, personal_view(personal), p);
    lemma_fuzzy_ends(b.char_matcher@, keys, p, n);
    let typed = t.len() as u16;
    let chars = matcher_completions(&b.char_matcher, t, ArcKind::PyChar, n);
    let words = matcher_completions(&b.word_matcher, t, ArcKind::PyWord, n);
    let en = matcher_completions(&b.en_matcher, t, ArcKind::EnWord, n);
    lemma_completion_ends(completion_slots(b.char_matcher.key_view(), b.char_matcher.slot_view(), t), ArcKind::PyChar, n, typed, p, n);
    lemma_completion_ends(completion_slots(b.word_matcher.key_view(), b.word_matcher.slot_view(), t), ArcKind::PyWord, n, typed, p, n);
    lemma_completion_ends(completion_slots(b.en_matcher.key_view(), b.en_matcher.slot_view(), t), ArcKind::EnWord, n, typed, p, n);
    let mine = match personal {
        Some(pm) => matcher_completions(pm.zh, t, ArcKind::PyPersonal, n) + matcher_completions(pm.en, t, ArcKind::EnPersonal, n),
        None => seq![],
    };
    match personal {
        Some(pm) => {
            lemma_completion_ends(completion_slots(pm.zh.key_view(), pm.zh.slot_view(), t), ArcKind::PyPersonal, n, typed, p, n);
            lemma_completion_ends(completion_slots(pm.en.key_view(), pm.en.slot_view(), t), ArcKind::EnPersonal, n, typed, p, n);
            lemma_concat_ends(matcher_completions(pm.zh, t, ArcKind::PyPersonal, n), matcher_completions(pm.en, t, ArcKind::EnPersonal, n), p, n);
        },
        None => {},
    }
    lemma_concat_ends(chars, words, p, n);
    lemma_concat_ends(chars + words, mine, p, n);
    lemma_concat_ends(chars + words + mine, en, p, n);
    let exact = b.exact_arcs(keys, personal_view(personal), p);
    let fz = b.fuzzy_arcs(keys, p);
    let cp = b.completion_arcs(keys, personal, p);
    assert(ends_within(cp, p, n));
    lemma_concat_ends(exact, fz, p, n);
    lemma_concat_ends(exact + fz, cp, p, n);
}

/// Every key of `m` that the keys spell from `start`, ending by `end`,
/// shows among the matches with its entries.
pub proof fn lemma_matches_has(
    m: Map<Seq<char>, Seq<EntryView>>,
    keys: Seq<char>,
    start: int,
    end: int,
    e: int,
)
    requires
        start < e <= end,
        e <= keys.len(),
        m.contains_key(keys.subrange(start, e)),
    ensures
        exists|j: int| 0 <= j < matches_upto(m, keys, start, end).len()
            && #[trigger] matches_upto(m, keys, start, end)[j] == (e, m[keys.subrange(start, e)]),
    decreases end - start,
{
    let cur = matches_upto(m, keys, start, end);
    if e == end {
        let prev = matches_upto(m, keys, start, end - 1);
        assert(cur == prev.push((end, m[keys.subrange(start, end)])));
        assert(cur[prev.len() as int] == (e, m[keys.subrange(start, e)]));
    } else {
        lemma_matches_has(m, keys, start, end - 1, e);
        let prev = matches_upto(m, keys, start, end - 1);
        let j = choose|j: int| 0 <= j < prev.len() && #[trigger] prev[j] == (e, m[keys.subrange(start, e)]);
        assert(cur[j] == prev[j]);
    }
}

/// What is added can be read back: after adding entry `x` under a
/// nonempty key, matching keys that spell that key from `start` finds the
/// key's entries, ending with `x`.
pub proof fn law_add_then_match(
    m: Map<Seq<char>, Seq<EntryView>>,
    k: Seq<char>,
    x: EntryView,
    keys: Seq<char>,
    start: int,
)
    requires
        k.len() > 0,
        0 <= start,
        start + k.len() <= keys.len(),
        keys.subrange(start, start + k.len()) == k,
    ensures
        exists|j: int| 0 <= j < matches_at(add_spec(m, k, x), keys, start).len()
            && #[trigger] matches_at(add_spec(m, k, x), keys, start)[j].0 == start + k.len()
            && matches_at(add_spec(m, k, x), keys, start)[j].1.last() == x,
{
    let m2 = add_spec(m, k, x);
    lemma_matches_has(m2, keys, start, keys.len() as int, start + k.len());
    let ms = matches_at(m2, keys, start);
    let j = choose|j: int| 0 <= j < ms.len() && #[trigger] ms[j] == (start + k.len(), m2[keys.subrange(start, start + k.len())]);
    assert(ms[j].0 == start + k.len());
}

/// The dictionary left by a sequence of adds into an empty matcher.
pub open spec fn adds_map(adds: Seq<(Seq<char>, EntryView)>) -> Map<Seq<char>, Seq<EntryView>>
    decreases adds.len(),
{
    if adds.len() == 0 {
        Map::empty()
    } else {
        add_spec(adds_map(adds.drop_last()), adds.last().0, adds.last().1)
    }
}

/// The entries added under `k`, in add order.
pub open spec fn entries_for(adds: Seq<(Seq<char>, EntryView)>, k: Seq<char>) -> Seq<EntryView>
    decreases adds.len(),
{
    if adds.len() == 0 {
        seq![]
    } else if adds.last().0 == k {
        entries_for(adds.drop_last(), k).push(adds.last().1)
    } else {
        entries_for(adds.drop_last(), k)
    }
}

/// The matches over `keys` from `start`, ending by `end`, of the keys the
/// adds used: each end in increasing order whose substring was added,
/// with its entries in add order.
pub open spec fn matches_of(adds: Seq<(Seq<char>, EntryView)>, keys: Seq<char>, start: int, end: int) -> Seq<(int, Seq<EntryView>)>
    decreases end - start,
{
    if end <= start {
        seq![]
    } else if end <= keys.len() && entries_for(adds, keys.subrange(start, end)).len() > 0 {
        matches_of(adds, keys, start, end - 1).push((end, entries_for(adds, keys.subrange(start, end))))
    } else {
        matches_of(adds, keys, start, end - 1)
    }
}

pub proof fn lemma_adds_map(adds: Seq<(Seq<char>, EntryView)>)
    ensures
        forall|k: Seq<char>| #[trigger] adds_map(adds).contains_key(k)
            <==> (k.len() > 0 && entries_for(adds, k).len() > 0),
        forall|k: Seq<char>| #[trigger] adds_map(adds).contains_key(k) ==> adds_map(adds)[k] == entries_for(adds, k),
    decreases adds.len(),
{
    if adds.len() > 0 {
        lemma_adds_map(adds.drop_last());
        let (k0, e0) = adds.last();
        let prev = adds_map(adds.drop_last());
        assert forall|k: Seq<char>| #[trigger] adds_map(adds).contains_key(k)
            <==> (k.len() > 0 && entries_for(adds, k).len() > 0) by {
            if k == k0 && k0.len() > 0 {
                assert(entries_for(adds, k).len() > 0);
            }
        }
        assert forall|k: Seq<char>| #[trigger] adds_map(adds).contains_key(k) implies adds_map(adds)[k] == entries_for(adds, k) by {
            if k == k0 && k0.len() > 0 {
                if prev.contains_key(k) {
                } else {
                    assert(entries_for(adds.drop_last(), k).len() == 0);
                    assert(entries_for(adds.drop_last(), k) =~= Seq::<EntryView>::empty());
                    assert(entries_for(adds, k) =~= seq![e0]);
                }
            }
        }
    }
}

/// A matcher filled by a sequence of adds reports, for keys from `start`,
/// exactly the ends whose substring some add used (ascending), each with
/// the entries added under that key in add order; empty keys are ignored.
pub proof fn law_adds_then_matches(adds: Seq<(Seq<char>, EntryView)>, keys: Seq<char>, start: int, end: int)
    requires
        0 <= start,
    ensures
        matches_upto(adds_map(adds), keys, start, end) == matches_of(adds, keys, start, end),
    decreases end - start,
{
    lemma_adds_map(adds);
    if end > start {
        law_adds_then_matches(adds, keys, start, end - 1);
        let sub = keys.subrange(start, end);
        if end <= keys.len() {
            assert(sub.len() == end - start);
        }
    }
}

/// Ends of matches lie after the start and within the keys.
pub proof fn lemma_matches_bounds(m: Map<Seq<char>, Seq<EntryView>>, keys: Seq<char>, start: int, end: int)
    ensures
        forall|j: int| 0 <= j < matches_upto(m, keys, start, end).len()
            ==> start < (#[trigger] matches_upto(m, keys, start, end)[j]).0 <= keys.len()
                && matches_upto(m, keys, start, end)[j].0 <= end,
    decreases end - start,
{
    if end > start {
        lemma_matches_bounds(m, keys, start, end - 1);
        let prev = matches_upto(m, keys, start, end - 1);
        let cur = matches_upto(m, keys, start, end);
        assert forall|j: int| 0 <= j < cur.len()
            implies start < (#[trigger] cur[j]).0 <= keys.len() && cur[j].0 <= end by {
            if j < prev.len() {
                assert(cur[j] == prev[j]);
            }
        }
    }
}

/// Append the arcs for the matches `ms` at `start`.
fn push_arcs<'a>(
    out: &mut Vec<Arc<'a>>,
    ms: &Vec<(usize, &'a [Entry])>,
    kind: ArcKind,
    keys: &'a str,
    start: usize,
    keys_reading: bool,
)
    requires
        is_ascii_seq(keys@),
        forall|j: int| 0 <= j < ms@.len() ==> start < (#[trigger] ms@[j]).0 <= keys@.len(),
    ensures
        arcs_view(final(out)@) == arcs_view(old(out)@) + arcs_of(ms_view(ms@), kind, keys@, start as int, keys_reading),
{
    let ghost base = arcs_view(out@);
    let mut a: usize = 0;
    while a < ms.len()
        invariant
            is_ascii_seq(keys@),
            forall|j: int| 0 <= j < ms@.len() ==> start < (#[trigger] ms@[j]).0 <= keys@.len(),
            a <= ms@.len(),
            arcs_view(out@) == base + arcs_of(ms_view(ms@.take(a as int)), kind, keys@, start as int, keys_reading),
        decreases ms@.len() - a,
    {
        let (end, entries) = ms[a];
        let ghost before = arcs_view(out@);
        let ghost ev = entries_view(entries@);
        let reading: &'a str = if keys_reading { keys.substring_ascii(start, end) } else { "" };
        let mut b: usize = 0;
        while b < entries.len()
            invariant
                b <= entries@.len(),
                start < end <= keys@.len(),
                ev == entries_view(entries@),
                keys_reading ==> reading@ == keys@.subrange(start as int, end as int),
                arcs_view(out@) == before + entry_arcs(ev.take(b as int), end as int, kind, keys@, start as int, keys_reading),
            decreases entries@.len() - b,
        {
            let e = &entries[b];
            let pinyin: &'a str = if keys_reading { reading } else { e.pinyin.as_str() };
            let ghost prev = out@;
            out.push(Arc {
                end,
                text: e.text.as_str(),
                pinyin,
                lm_token: e.lm_token,
                kind,
                completed: false,
                typed_len: 0,
                fuzzy: false,
            });
            proof {
                assert(out@.drop_last() =~= prev);
                assert(ev.take(b + 1) =~= ev.take(b as int).push(ev[b as int]));
                assert(entry_arcs(ev.take(b + 1), end as int, kind, keys@, start as int, keys_reading)
                    =~= entry_arcs(ev.take(b as int), end as int, kind, keys@, start as int, keys_reading).push(out@.last()@));
                assert(arcs_view(out@) =~= arcs_view(out@.drop_last()).push(out@.last()@));
            }
            b += 1;
        }
        proof {
            assert(ev.take(ev.len() as int) =~= ev);
            assert(ms@.take(a + 1).drop_last() =~= ms@.take(a as int));
            assert(ms_view(ms@.take(a + 1)).drop_last() =~= ms_view(ms@.take(a as int)));
            assert(ms_view(ms@.take(a + 1)).last() == (end as int, entries_view(entries@)));
        }
        a += 1;
    }
    proof {
        assert(ms@.take(ms@.len() as int) =~= ms@);
    }
}

/// Whether `(end, lm_token)` is among the pairs in `seen`.
fn seen_pair(seen: &Vec<(usize, u32)>, end: usize, lm_token: u32) -> (r: bool)
    ensures
        r == exists|j: int| 0 <= j < seen@.len() && (#[trigger] seen@[j]).0 == end && seen@[j].1 == lm_token,
{
    let mut j: usize = 0;
    while j < seen.len()
        invariant
            j <= seen@.len(),
            forall|t: int| 0 <= t < j ==> !((#[trigger] seen@[t]).0 == end && seen@[t].1 == lm_token),
        decreases seen@.len() - j,
    {
        if seen[j].0 == end && seen[j].1 == lm_token {
            return true;
        }
        j += 1;
    }
    false
}

/// Append the general English arcs for `ms` that no personal English arc
/// in `pen` shadows (`seen` holds their `(end, lm_token)` pairs).
fn push_unshadowed<'a>(
    out: &mut Vec<Arc<'a>>,
    ms: &Vec<(usize, &'a [Entry])>,
    keys: &'a str,
    start: usize,
    seen: &Vec<(usize, u32)>,
    Ghost(pen): Ghost<Seq<ArcView>>,
)
    requires
        is_ascii_seq(keys@),
        forall|j: int| 0 <= j < ms@.len() ==> start < (#[trigger] ms@[j]).0 <= keys@.len(),
        seen@.len() == pen.len(),
        forall|j: int| 0 <= j < seen@.len() ==> (#[trigger] seen@[j]).0 == pen[j].end && seen@[j].1 == pen[j].lm_token,
    ensures
        arcs_view(final(out)@) == arcs_view(old(out)@) + unshadowed(
            arcs_of(ms_view(ms@), ArcKind::EnWord, keys@, start as int, true),
            pen,
        ),
{
    let mut tmp: Vec<Arc<'a>> = Vec::new();
    push_arcs(&mut tmp, ms, ArcKind::EnWord, keys, start, true);
    let ghost all = arcs_view(tmp@);
    assert(all =~= arcs_of(ms_view(ms@), ArcKind::EnWord, keys@, start as int, true));
    let ghost base = arcs_view(out@);
    let mut k: usize = 0;
    while k < tmp.len()
        invariant
            k <= tmp@.len(),
            all == arcs_view(tmp@),
            seen@.len() == pen.len(),
            forall|j: int| 0 <= j < seen@.len() ==> (#[trigger] seen@[j]).0 == pen[j].end && seen@[j].1 == pen[j].lm_token,
            arcs_view(out@) == base + unshadowed(all.take(k as int), pen),
        decreases tmp@.len() - k,
    {
        let a = &tmp[k];
        let hit = seen_pair(seen, a.end, a.lm_token);
        proof {
            assert(all.take(k + 1).drop_last() =~= all.take(k as int));
            assert(all.take(k + 1).last() == all[k as int]);
            if hit {
                let j = choose|j: int| 0 <= j < seen@.len() && (#[trigger] seen@[j]).0 == a.end && seen@[j].1 == a.lm_token;
                assert(pen[j].end == all[k as int].end);
            } else {
                assert forall|j: int| 0 <= j < pen.len() implies !((#[trigger] pen[j]).end == all[k as int].end
                    && pen[j].lm_token == all[k as int].lm_token) by {
                    assert(seen@[j].0 == pen[j].end);
                }
            }
        }
        if !hit {
            let ghost prev = out@;
            out.push(Arc {
                end: a.end,
                text: a.text,
                pinyin: a.pinyin,
                lm_token: a.lm_token,
                kind: a.kind,
                completed: a.completed,
                typed_len: a.typed_len,
                fuzzy: a.fuzzy,
            });
            proof {
                assert(out@.drop_last() =~= prev);
                assert(arcs_view(out@) =~= arcs_view(prev).push(all[k as int]));
            }
        }
        k += 1;
    }
    proof {
        assert(all.take(all.len() as int) =~= all);
    }
}

/// Shortest typed tail that word, personal and English keys complete;
/// single characters complete from one letter on.
pub const MIN_WORD_COMPLETION: usize = 2;

/// `t` begins `k` without spelling it whole.
pub open spec fn is_strict_prefix(t: Seq<char>, k: Seq<char>) -> bool {
    t.len() < k.len() && k.take(t.len() as int) == t
}

/// The entry lists (`sv`, in the order of the keys `kv`) of the keys that
/// `t` strictly begins.
pub open spec fn completion_slots(kv: Seq<Seq<char>>, sv: Seq<Seq<EntryView>>, t: Seq<char>) -> Seq<Seq<EntryView>>
    decreases kv.len(),
{
    if kv.len() == 0 {
        seq![]
    } else {
        let prev = completion_slots(kv.drop_last(), sv, t);
        if is_strict_prefix(t, kv.last()) {
            prev.push(sv[kv.len() - 1])
        } else {
            prev
        }
    }
}

/// One arc per entry of `es`, all ending at `end`, each reading its
/// entry's own syllables, with the given kind and flags.
pub open spec fn tagged_arcs(
    es: Seq<EntryView>,
    end: int,
    kind: ArcKind,
    completed: bool,
    typed_len: u16,
    fuzzy: bool,
) -> Seq<ArcView> {
    es.map_values(
        |e: EntryView|
            ArcView {
                end: end,
                text: e.text,
                pinyin: e.pinyin,
                lm_token: e.lm_token,
                kind: kind,
                completed: completed,
                typed_len: typed_len,
                fuzzy: fuzzy,
            },
    )
}

/// Typing-ahead arcs for a list of entry lists, in order: each ends at
/// `end` and records that `typed` keys of its reading were typed.
pub open spec fn completion_arcs_of(slots: Seq<Seq<EntryView>>, kind: ArcKind, end: int, typed: u16) -> Seq<ArcView>
    decreases slots.len(),
{
    if slots.len() == 0 {
        seq![]
    } else {
        completion_arcs_of(slots.drop_last(), kind, end, typed) + tagged_arcs(slots.last(), end, kind, true, typed, false)
    }
}

/// The typing-ahead arcs of `m` for the typed tail `t`, ending at `end`.
pub open spec fn matcher_completions(m: &Matcher, t: Seq<char>, kind: ArcKind, end: int) -> Seq<ArcView> {
    completion_arcs_of(completion_slots(m.key_view(), m.slot_view(), t), kind, end, t.len() as u16)
}

pub open spec fn is_zcs(c: char) -> bool {
    c == 'z' || c == 'c' || c == 's'
}

pub open spec fn is_iea(c: char) -> bool {
    c == 'i' || c == 'e' || c == 'a'
}

/// The z/zh, c/ch, s/sh confusion: `s` with its initial swapped, if it
/// starts with one of them.
pub open spec fn fuzzy_initial(s: Seq<char>) -> Option<Seq<char>> {
    if s.len() >= 2 && is_zcs(s[0]) && s[1] == 'h' {
        Some(s.take(1) + s.skip(2))
    } else if s.len() >= 1 && is_zcs(s[0]) {
        Some(s.take(1).push('h') + s.skip(1))
    } else {
        None
    }
}

/// The in/ing, en/eng, an/ang confusion: `s` with its final swapped, if it
/// ends with one of them.
pub open spec fn fuzzy_final(s: Seq<char>) -> Option<Seq<char>> {
    if s.len() >= 3 && is_iea(s[s.len() - 3]) && s[s.len() - 2] == 'n' && s[s.len() - 1] == 'g' {
        Some(s.drop_last())
    } else if s.len() >= 2 && is_iea(s[s.len() - 2]) && s[s.len() - 1] == 'n' {
        Some(s.push('g'))
    } else {
        None
    }
}

/// Fuzzy character arcs ending at `end` for the variant spelling `v`: the
/// entries of `m` under `v`, if it is a key.
pub open spec fn variant_arcs(m: Map<Seq<char>, Seq<EntryView>>, v: Option<Seq<char>>, end: int) -> Seq<ArcView> {
    match v {
        Some(k) => if m.contains_key(k) {
            tagged_arcs(m[k], end, ArcKind::PyChar, false, 0, true)
        } else {
            seq![]
        },
        None => seq![],
    }
}

/// The fuzzy arcs from `start` ending by `end`: for each end in increasing
/// order, the arcs of the initial-swapped then the final-swapped spelling
/// of the typed substring.
pub open spec fn fuzzy_upto(m: Map<Seq<char>, Seq<EntryView>>, keys: Seq<char>, start: int, end: int) -> Seq<ArcView>
    decreases end - start,
{
    if end <= start {
        seq![]
    } else {
        let s = keys.subrange(start, end);
        fuzzy_upto(m, keys, start, end - 1) + variant_arcs(m, fuzzy_initial(s), end) + variant_arcs(m, fuzzy_final(s), end)
    }
}

/// Fuzzy finals are read either way: a typed syllable ending in in/en/an
/// also reads with ing/eng/ang and back, and swapping twice gives the
/// typed syllable again.
pub proof fn law_fuzzy_final_symmetric(s: Seq<char>)
    ensures
        s.len() >= 2 && is_iea(s[s.len() - 2]) && s[s.len() - 1] == 'n' ==> fuzzy_final(s) == Some(s.push('g')),
        s.len() >= 3 && is_iea(s[s.len() - 3]) && s[s.len() - 2] == 'n' && s[s.len() - 1] == 'g'
            ==> fuzzy_final(s) == Some(s.take(s.len() - 1)),
        fuzzy_final(s) matches Some(t) ==> t != s && fuzzy_final(t) == Some(s),
{
    if s.len() >= 3 && is_iea(s[s.len() - 3]) && s[s.len() - 2] == 'n' && s[s.len() - 1] == 'g' {
        let t = s.drop_last();
        assert(t =~= s.take(s.len() - 1));
        assert(t.push('g') =~= s);
    } else if s.len() >= 2 && is_iea(s[s.len() - 2]) && s[s.len() - 1] == 'n' {
        let t = s.push('g');
        assert(t.drop_last() =~= s);
        assert(t.len() == s.len() + 1);
    }
}

/// The z/zh, c/ch, s/sh initials are read either way: a syllable starting
/// with z, c or s has a variant (zh, ch, sh read as z, c, s and the other
/// way round), and swapping twice gives it back (no syllable has an `h`
/// after zh, ch or sh).
pub proof fn law_fuzzy_initial_symmetric(s: Seq<char>)
    ensures
        s.len() >= 1 && is_zcs(s[0]) <==> fuzzy_initial(s) is Some,
        s.len() >= 2 && is_zcs(s[0]) && s[1] == 'h' ==> fuzzy_initial(s) == Some(seq![s[0]] + s.skip(2)),
        s.len() >= 1 && is_zcs(s[0]) && !(s.len() >= 2 && s[1] == 'h')
            ==> fuzzy_initial(s) == Some(seq![s[0], 'h'] + s.skip(1)),
        fuzzy_initial(s) matches Some(t) ==> t != s && t[0] == s[0],
        !(s.len() >= 3 && s[1] == 'h' && s[2] == 'h') ==> (fuzzy_initial(s) matches Some(t) ==> fuzzy_initial(t) == Some(s)),
{
    if s.len() >= 2 && is_zcs(s[0]) && s[1] == 'h' {
        let t = s.take(1) + s.skip(2);
        assert(s.take(1) =~= seq![s[0]]);
        assert(t.len() == s.len() - 1);
        assert(t[0] == s[0]);
        if !(s.len() >= 3 && s[2] == 'h') {
            assert(!(t.len() >= 2 && t[1] == 'h'));
            assert(t.take(1).push('h') + t.skip(1) =~= s);
        }
    } else if s.len() >= 1 && is_zcs(s[0]) {
        let t = s.take(1).push('h') + s.skip(1);
        assert(s.take(1).push('h') =~= seq![s[0], 'h']);
        assert(t.len() == s.len() + 1);
        assert(t[0] == s[0]);
        assert(t[1] == 'h');
        assert(t.take(1) + t.skip(2) =~= s);
    }
}

proof fn lemma_fuzzy_upto_has(m: Map<Seq<char>, Seq<EntryView>>, keys: Seq<char>, start: int, e: int, last: int, a: ArcView)
    requires
        start < e <= last,
        variant_arcs(m, fuzzy_initial(keys.subrange(start, e)), e).contains(a)
            || variant_arcs(m, fuzzy_final(keys.subrange(start, e)), e).contains(a),
    ensures
        fuzzy_upto(m, keys, start, last).contains(a),
    decreases last - start,
{
    let s = keys.subrange(start, last);
    let prev = fuzzy_upto(m, keys, start, last - 1);
    let x = variant_arcs(m, fuzzy_initial(s), last);
    let y = variant_arcs(m, fuzzy_final(s), last);
    let all = prev + x + y;
    assert(fuzzy_upto(m, keys, start, last) == all);
    if e < last {
        lemma_fuzzy_upto_has(m, keys, start, e, last - 1, a);
        let j = choose|j: int| 0 <= j < prev.len() && prev[j] == a;
        assert(all[j] == a);
    } else if x.contains(a) {
        let j = choose|j: int| 0 <= j < x.len() && x[j] == a;
        assert(all[prev.len() + j] == a);
    } else {
        let j = choose|j: int| 0 <= j < y.len() && y[j] == a;
        assert(all[prev.len() + x.len() + j] == a);
    }
}

/// Fuzzy spelling reaches the character dictionary: for every typed
/// substring `keys[i..e]` whose initial- or final-swapped spelling is a
/// character key, each entry under that key lies among the fuzzy arcs at
/// `i` as a fuzzy character arc ending at `e` that reads the entry's own
/// syllable.
pub proof fn law_fuzzy_reaches(m: Map<Seq<char>, Seq<EntryView>>, keys: Seq<char>, i: int, e: int, k: Seq<char>, j: int)
    requires
        0 <= i < e <= keys.len(),
        fuzzy_initial(keys.subrange(i, e)) == Some(k) || fuzzy_final(keys.subrange(i, e)) == Some(k),
        m.contains_key(k),
        0 <= j < m[k].len(),
    ensures
        fuzzy_upto(m, keys, i, keys.len() as int).contains(
            ArcView {
                end: e,
                text: m[k][j].text,
                pinyin: m[k][j].pinyin,
                lm_token: m[k][j].lm_token,
                kind: ArcKind::PyChar,
                completed: false,
                typed_len: 0,
                fuzzy: true,
            },
        ),
{
    let a = ArcView {
        end: e,
        text: m[k][j].text,
        pinyin: m[k][j].pinyin,
        lm_token: m[k][j].lm_token,
        kind: ArcKind::PyChar,
        completed: false,
        typed_len: 0,
        fuzzy: true,
    };
    let t = tagged_arcs(m[k], e, ArcKind::PyChar, false, 0, true);
    assert(t[j] == a);
    assert(t.contains(a));
    lemma_fuzzy_upto_has(m, keys, i, e, keys.len() as int, a);
}

/// The finished lattice holds those fuzzy arcs: typing `xin` where the
/// character dictionary only knows `xing` still lays its characters, as
/// fuzzy arcs over the typed span.
pub proof fn law_lattice_fuzzy<'p>(
    b: LatticeBuilder,
    keys: Seq<char>,
    personal: Option<PersonalMatchers<'p>>,
    i: int,
    e: int,
    k: Seq<char>,
    j: int,
)
    requires
        0 <= i < e <= keys.len(),
        fuzzy_initial(keys.subrange(i, e)) == Some(k) || fuzzy_final(keys.subrange(i, e)) == Some(k),
        b.char_matcher@.contains_key(k),
        0 <= j < b.char_matcher@[k].len(),
    ensures
        b.lattice_arcs(keys, personal, i).contains(
            ArcView {
                end: e,
                text: b.char_matcher@[k][j].text,
                pinyin: b.char_matcher@[k][j].pinyin,
                lm_token: b.char_matcher@[k][j].lm_token,
                kind: ArcKind::PyChar,
                completed: false,
                typed_len: 0,
                fuzzy: true,
            },
        ),
{
    let m = b.char_matcher@;
    let a = ArcView {
        end: e,
        text: m[k][j].text,
        pinyin: m[k][j].pinyin,
        lm_token: m[k][j].lm_token,
        kind: ArcKind::PyChar,
        completed: false,
        typed_len: 0,
        fuzzy: true,
    };
    law_fuzzy_reaches(m, keys, i, e, k, j);
    let x = b.exact_arcs(keys, personal_view(personal), i);
    let f = b.fuzzy_arcs(keys, i);
    let c = b.completion_arcs(keys, personal, i);
    let q = choose|q: int| 0 <= q < f.len() && f[q] == a;
    assert((x + f + c)[x.len() + q] == a);
}

/// Typing ahead reaches exactly the keys that the typed tail begins
/// without finishing: each such key's entries are among the completions,
/// and every completion is the entry list of such a key.
pub proof fn law_completion_slots(kv: Seq<Seq<char>>, sv: Seq<Seq<EntryView>>, t: Seq<char>, j: int)
    requires
        kv.len() <= sv.len(),
    ensures
        0 <= j < kv.len() && t.len() < kv[j].len() && kv[j].take(t.len() as int) == t
            ==> completion_slots(kv, sv, t).contains(sv[j]),
        forall|x: int| #![trigger completion_slots(kv, sv, t)[x]] 0 <= x < completion_slots(kv, sv, t).len()
            ==> exists|q: int| #![trigger kv[q]] 0 <= q < kv.len() && t.len() < kv[q].len()
                && kv[q].take(t.len() as int) == t && completion_slots(kv, sv, t)[x] =~= sv[q],
        completion_slots(kv, sv, t).len() <= kv.len(),
    decreases kv.len(),
{
    if kv.len() > 0 {
        let kd = kv.drop_last();
        law_completion_slots(kd, sv, t, j);
        let prev = completion_slots(kd, sv, t);
        let cur = completion_slots(kv, sv, t);
        if 0 <= j < kv.len() && t.len() < kv[j].len() && kv[j].take(t.len() as int) == t {
            if j < kd.len() {
                assert(kd[j] == kv[j]);
                let y = choose|y: int| 0 <= y < prev.len() && prev[y] == sv[j];
                assert(cur[y] == sv[j]);
            } else {
                assert(kv.last() == kv[j]);
                assert(cur[prev.len() as int] == sv[j]);
            }
        }
        assert forall|x: int| #![trigger cur[x]] 0 <= x < cur.len() implies exists|q: int| #![trigger kv[q]] 0 <= q < kv.len()
            && t.len() < kv[q].len() && kv[q].take(t.len() as int) == t && cur[x] =~= sv[q] by {
            if x < prev.len() {
                assert(cur[x] == prev[x]);
                let q = choose|q: int| #![trigger kv[q]] 0 <= q < kd.len() && t.len() < kd[q].len()
                    && kd[q].take(t.len() as int) == t && prev[x] =~= sv[q];
                assert(kd[q] == kv[q]);
                assert(sv[q] == cur[x]);
            } else {
                let q = kv.len() - 1;
                assert(kv.last() == kv[q]);
                assert(cur[x] == sv[q]);
            }
        }
    }
}

/// Every typing-ahead arc ends at `end`, is marked completed with the
/// typed length, is no fuzzy arc, and has the kind of its dictionary.
pub proof fn law_completion_arcs_shape(slots: Seq<Seq<EntryView>>, kind: ArcKind, end: int, typed: u16)
    ensures
        forall|x: int| 0 <= x < completion_arcs_of(slots, kind, end, typed).len() ==> {
            let a = #[trigger] completion_arcs_of(slots, kind, end, typed)[x];
            &&& a.end == end
            &&& a.completed
            &&& a.typed_len == typed
            &&& !a.fuzzy
            &&& a.kind == kind
        },
    decreases slots.len(),
{
    if slots.len() > 0 {
        law_completion_arcs_shape(slots.drop_last(), kind, end, typed);
        let a = completion_arcs_of(slots.drop_last(), kind, end, typed);
        let b = tagged_arcs(slots.last(), end, kind, true, typed, false);
        assert forall|x: int| 0 <= x < (a + b).len() implies {
            let c = #[trigger] (a + b)[x];
            &&& c.end == end
            &&& c.completed
            &&& c.typed_len == typed
            &&& !c.fuzzy
            &&& c.kind == kind
        } by {
            if x < a.len() {
                assert((a + b)[x] == a[x]);
            } else {
                assert((a + b)[x] == b[x - a.len()]);
            }
        }
    }
}

/// Every fuzzy arc at `start` is a fuzzy, not completed, character arc
/// moving forward within the keys.
pub proof fn law_fuzzy_shape(m: Map<Seq<char>, Seq<EntryView>>, keys: Seq<char>, start: int, end: int)
    requires
        end <= keys.len(),
    ensures
        forall|x: int| 0 <= x < fuzzy_upto(m, keys, start, end).len() ==> {
            let a = #[trigger] fuzzy_upto(m, keys, start, end)[x];
            &&& a.fuzzy
            &&& !a.completed
            &&& a.typed_len == 0
            &&& a.kind == ArcKind::PyChar
            &&& start < a.end <= end
        },
    decreases end - start,
{
    if end > start {
        law_fuzzy_shape(m, keys, start, end - 1);
        let s = keys.subrange(start, end);
        let p = fuzzy_upto(m, keys, start, end - 1);
        let a = variant_arcs(m, fuzzy_initial(s), end);
        let b = variant_arcs(m, fuzzy_final(s), end);
        assert forall|x: int| 0 <= x < (p + a + b).len() implies {
            let c = #[trigger] (p + a + b)[x];
            &&& c.fuzzy
            &&& !c.completed
            &&& c.typed_len == 0
            &&& c.kind == ArcKind::PyChar
            &&& start < c.end <= end
        } by {
            if x < p.len() {
                assert((p + a + b)[x] == p[x]);
            } else if x < p.len() + a.len() {
                assert((p + a + b)[x] == a[x - p.len()]);
            } else {
                assert((p + a + b)[x] == b[x - p.len() - a.len()]);
            }
        }
    }
}

/// Every typing-ahead arc at `i` ends at the end of the keys, is marked
/// completed with the number of keys typed from `i` on, and is no fuzzy
/// arc; while fewer than `MIN_WORD_COMPLETION` keys are typed, only
/// characters are completed.
pub proof fn law_completion_shape<'p>(b: LatticeBuilder, keys: Seq<char>, personal: Option<PersonalMatchers<'p>>, i: int)
    requires
        0 <= i < keys.len(),
    ensures
        forall|x: int| 0 <= x < b.completion_arcs(keys, personal, i).len() ==> {
            let a = #[trigger] b.completion_arcs(keys, personal, i)[x];
            &&& a.end == keys.len()
            &&& a.completed
            &&& a.typed_len == (keys.len() - i) as u16
            &&& !a.fuzzy
            &&& (keys.len() - i < MIN_WORD_COMPLETION ==> a.kind == ArcKind::PyChar)
        },
{
    let n = keys.len() as int;
    let t = keys.subrange(i, n);
    let typed = t.len() as u16;
    let cs = matcher_completions(&b.char_matcher, t, ArcKind::PyChar, n);
    let ws = matcher_completions(&b.word_matcher, t, ArcKind::PyWord, n);
    let es = matcher_completions(&b.en_matcher, t, ArcKind::EnWord, n);
    law_completion_arcs_shape(completion_slots(b.char_matcher.key_view(), b.char_matcher.slot_view(), t), ArcKind::PyChar, n, typed);
    law_completion_arcs_shape(completion_slots(b.word_matcher.key_view(), b.word_matcher.slot_view(), t), ArcKind::PyWord, n, typed);
    law_completion_arcs_shape(completion_slots(b.en_matcher.key_view(), b.en_matcher.slot_view(), t), ArcKind::EnWord, n, typed);
    let mine = match personal {
        Some(pm) => matcher_completions(pm.zh, t, ArcKind::PyPersonal, n) + matcher_completions(pm.en, t, ArcKind::EnPersonal, n),
        None => seq![],
    };
    match personal {
        Some(pm) => {
            law_completion_arcs_shape(completion_slots(pm.zh.key_view(), pm.zh.slot_view(), t), ArcKind::PyPersonal, n, typed);
            law_completion_arcs_shape(completion_slots(pm.en.key_view(), pm.en.slot_view(), t), ArcKind::EnPersonal, n, typed);
            let z = matcher_completions(pm.zh, t, ArcKind::PyPersonal, n);
            let e = matcher_completions(pm.en, t, ArcKind::EnPersonal, n);
            assert forall|x: int| 0 <= x < mine.len() implies {
                let a = #[trigger] mine[x];
                &&& a.end == n && a.completed && a.typed_len == typed && !a.fuzzy
            } by {
                if x < z.len() {
                    assert(mine[x] == z[x]);
                } else {
                    assert(mine[x] == e[x - z.len()]);
                }
            }
        },
        None => {},
    }
    let all = b.completion_arcs(keys, personal, i);
    assert forall|x: int| 0 <= x < all.len() implies {
        let a = #[trigger] all[x];
        &&& a.end == keys.len()
        &&& a.completed
        &&& a.typed_len == (keys.len() - i) as u16
        &&& !a.fuzzy
        &&& (keys.len() - i < MIN_WORD_COMPLETION ==> a.kind == ArcKind::PyChar)
    } by {
        if t.len() < MIN_WORD_COMPLETION {
            assert(all == cs);
        } else {
            assert(all == cs + ws + mine + es);
            if x < cs.len() {
                assert(all[x] == cs[x]);
            } else if x < cs.len() + ws.len() {
                assert(all[x] == ws[x - cs.len()]);
            } else if x < cs.len() + ws.len() + mine.len() {
                assert(all[x] == mine[x - cs.len() - ws.len()]);
            } else {
                assert(all[x] == es[x - cs.len() - ws.len() - mine.len()]);
            }
        }
    }
}

pub open spec fn opt_view(v: Option<String>) -> Option<Seq<char>> {
    match v {
        Some(s) => Some(s@),
        None => None,
    }
}

/// No key strictly begun by `t`, no completions.
pub proof fn lemma_completion_slots_empty(kv: Seq<Seq<char>>, sv: Seq<Seq<EntryView>>, t: Seq<char>)
    requires
        forall|j: int| 0 <= j < kv.len() ==> !is_strict_prefix(t, #[trigger] kv[j]),
    ensures
        completion_slots(kv, sv, t) == Seq::<Seq<EntryView>>::empty(),
    decreases kv.len(),
{
    if kv.len() > 0 {
        assert forall|j: int| 0 <= j < kv.drop_last().len() implies !is_strict_prefix(t, #[trigger] kv.drop_last()[j]) by {
            assert(kv.drop_last()[j] == kv[j]);
        }
        lemma_completion_slots_empty(kv.drop_last(), sv, t);
        assert(kv.last() == kv[kv.len() - 1]);
    }
}

/// Whether `t` strictly begins `k`.
fn strictly_begins(t: &Vec<char>, k: &str) -> (r: bool)
    ensures
        r == is_strict_prefix(t@, k@),
{
    let kl = k.unicode_len();
    if kl <= t.len() {
        return false;
    }
    let mut j: usize = 0;
    while j < t.len()
        invariant
            j <= t@.len() < kl == k@.len(),
            forall|q: int| 0 <= q < j ==> t@[q] == k@[q],
        decreases t@.len() - j,
    {
        if k.get_char(j) != t[j] {
            assert(k@.take(t@.len() as int)[j as int] == k@[j as int]);
            return false;
        }
        j += 1;
    }
    assert(k@.take(t@.len() as int) =~= t@);
    true
}

/// `s` with its initial z/zh, c/ch or s/sh swapped (`fuzzy_initial`).
fn fuzzy_initial_of(s: &str) -> (r: Option<String>)
    ensures
        opt_view(r) == fuzzy_initial(s@),
{
    let c = to_chars(s);
    let n = c.len();
    if n >= 1 && (c[0] == 'z' || c[0] == 'c' || c[0] == 's') {
        if n >= 2 && c[1] == 'h' {
            let mut out = string_of(c.as_slice(), 0, 1);
            let rest = string_of(c.as_slice(), 2, n);
            push_all(&mut out, &rest);
            assert(out@ =~= s@.take(1) + s@.skip(2));
            Some(out)
        } else {
            let mut out = string_of(c.as_slice(), 0, 1);
            push_char(&mut out, 'h');
            let rest = string_of(c.as_slice(), 1, n);
            push_all(&mut out, &rest);
            assert(out@ =~= s@.take(1).push('h') + s@.skip(1));
            Some(out)
        }
    } else {
        None
    }
}

/// `s` with its final in/ing, en/eng or an/ang swapped (`fuzzy_final`).
fn fuzzy_final_of(s: &str) -> (r: Option<String>)
    ensures
        opt_view(r) == fuzzy_final(s@),
{
    let c = to_chars(s);
    let n = c.len();
    if n >= 3 && (c[n - 3] == 'i' || c[n - 3] == 'e' || c[n - 3] == 'a') && c[n - 2] == 'n' && c[n - 1] == 'g' {
        let out = string_of(c.as_slice(), 0, n - 1);
        assert(out@ =~= s@.drop_last());
        Some(out)
    } else if n >= 2 && (c[n - 2] == 'i' || c[n - 2] == 'e' || c[n - 2] == 'a') && c[n - 1] == 'n' {
        let mut out = string_of(c.as_slice(), 0, n);
        push_char(&mut out, 'g');
        assert(out@ =~= s@.push('g'));
        Some(out)
    } else {
        None
    }
}

/// Append every character of `t` to `s`.
fn push_all(s: &mut String, t: &String)
    ensures
        final(s)@ == old(s)@ + t@,
{
    let c = to_chars(t.as_str());
    let ghost base = s@;
    let mut i: usize = 0;
    while i < c.len()
        invariant
            c@ == t@,
            i <= c@.len(),
            s@ == base + c@.take(i as int),
        decreases c@.len() - i,
    {
        push_char(s, c[i]);
        assert(c@.take(i + 1) =~= c@.take(i as int).push(c@[i as int]));
        assert(s@ =~= base + c@.take(i + 1));
        i += 1;
    }
    assert(c@.take(c@.len() as int) =~= c@);
}

/// Append one arc per entry of `es` (`tagged_arcs`).
fn push_tagged<'a>(
    out: &mut Vec<Arc<'a>>,
    es: &'a [Entry],
    end: usize,
    kind: ArcKind,
    completed: bool,
    typed_len: u16,
    fuzzy: bool,
)
    ensures
        arcs_view(final(out)@) == arcs_view(old(out)@) + tagged_arcs(
            entries_view(es@),
            end as int,
            kind,
            completed,
            typed_len,
            fuzzy,
        ),
{
    let ghost base = arcs_view(out@);
    let ghost ev = entries_view(es@);
    let mut b: usize = 0;
    while b < es.len()
        invariant
            b <= es@.len(),
            ev == entries_view(es@),
            arcs_view(out@) == base + tagged_arcs(ev.take(b as int), end as int, kind, completed, typed_len, fuzzy),
        decreases es@.len() - b,
    {
        let e = &es[b];
        let ghost prev = out@;
        out.push(Arc {
            end,
            text: e.text.as_str(),
            pinyin: e.pinyin.as_str(),
            lm_token: e.lm_token,
            kind,
            completed,
            typed_len,
            fuzzy,
        });
        proof {
            assert(out@.drop_last() =~= prev);
            assert(ev.take(b + 1) =~= ev.take(b as int).push(ev[b as int]));
            assert(tagged_arcs(ev.take(b + 1), end as int, kind, completed, typed_len, fuzzy)
                =~= tagged_arcs(ev.take(b as int), end as int, kind, completed, typed_len, fuzzy).push(out@.last()@));
            assert(arcs_view(out@) =~= arcs_view(out@.drop_last()).push(out@.last()@));
        }
        b += 1;
    }
    assert(ev.take(ev.len() as int) =~= ev);
}

/// Append the typing-ahead arcs of `m` for the typed tail `t`.
fn push_completions<'a>(out: &mut Vec<Arc<'a>>, m: &'a Matcher, t: &str, kind: ArcKind, end: usize)
    requires
        m.wf(),
        t@.len() > 0,
    ensures
        arcs_view(final(out)@) == arcs_view(old(out)@) + matcher_completions(m, t@, kind, end as int),
{
    let typed = t.unicode_len() as u16;
    let slots = m.completions(t);
    let ghost cs = completion_slots(m.key_view(), m.slot_view(), t@);
    let ghost base = arcs_view(out@);
    let mut j: usize = 0;
    while j < slots.len()
        invariant
            j <= slots@.len() == cs.len(),
            slots@.map_values(|es: &'a [Entry]| entries_view(es@)) == cs,
            typed == t@.len() as u16,
            arcs_view(out@) == base + completion_arcs_of(cs.take(j as int), kind, end as int, typed),
        decreases slots@.len() - j,
    {
        push_tagged(out, slots[j], end, kind, true, typed, false);
        proof {
            assert(cs.take(j + 1).drop_last() =~= cs.take(j as int));
            assert(cs[j as int] == entries_view(slots@[j as int]@));
            assert(arcs_view(out@) =~= base + completion_arcs_of(cs.take(j + 1), kind, end as int, typed));
        }
        j += 1;
    }
    assert(cs.take(cs.len() as int) =~= cs);
}

/// Append the fuzzy arcs of `m` for the variant spelling `v`.
fn push_variant<'a>(out: &mut Vec<Arc<'a>>, m: &'a Matcher, v: Option<String>, end: usize)
    requires
        m.wf(),
    ensures
        arcs_view(final(out)@) == arcs_view(old(out)@) + variant_arcs(m@, opt_view(v), end as int),
{
    match v {
        Some(k) => match m.lookup(k.as_str()) {
            Some(es) => push_tagged(out, es, end, ArcKind::PyChar, false, 0, true),
            None => {
                assert(arcs_view(out@) =~= arcs_view(out@) + Seq::<ArcView>::empty());
            },
        },
        None => {
            assert(arcs_view(out@) =~= arcs_view(out@) + Seq::<ArcView>::empty());
        },
    }
}

/// Append the fuzzy arcs of `m` for the keys from `start`.
fn push_fuzzy<'a>(out: &mut Vec<Arc<'a>>, m: &'a Matcher, keys: &str, start: usize)
    requires
        m.wf(),
        is_ascii_seq(keys@),
        start < keys@.len(),
    ensures
        arcs_view(final(out)@) == arcs_view(old(out)@) + fuzzy_upto(m@, keys@, start as int, keys@.len() as int),
{
    let n = keys.unicode_len();
    let ghost base = arcs_view(out@);
    let mut end = start;
    while end < n
        invariant
            m.wf(),
            is_ascii_seq(keys@),
            start <= end <= n,
            n == keys@.len(),
            arcs_view(out@) == base + fuzzy_upto(m@, keys@, start as int, end as int),
        decreases n - end,
    {
        let e = end + 1;
        let s = keys.substring_ascii(start, e);
        push_variant(out, m, fuzzy_initial_of(s), e);
        push_variant(out, m, fuzzy_final_of(s), e);
        proof {
            let sv = keys@.subrange(start as int, e as int);
            assert(s@ == sv);
            assert(arcs_view(out@) =~= base + fuzzy_upto(m@, keys@, start as int, e as int));
        }
        end = e;
    }
}

/// View of a match list as returned by `Matcher::for_matches`.
pub open spec fn ms_view<'a>(ms: Seq<(usize, &'a [Entry])>) -> Seq<(int, Seq<EntryView>)> {
    ms.map_values(|p: (usize, &'a [Entry])| (p.0 as int, entries_view(p.1@)))
}

/// The key list after adding `k`: a new nonempty key goes last.
pub open spec fn add_keys(kv: Seq<Seq<char>>, k: Seq<char>) -> Seq<Seq<char>> {
    if k.len() == 0 || kv.contains(k) {
        kv
    } else {
        kv.push(k)
    }
}

/// The entry lists after adding `e` under `k`: appended to the list of an
/// existing key, or a new list for a new key.
pub open spec fn add_slots(kv: Seq<Seq<char>>, sv: Seq<Seq<EntryView>>, k: Seq<char>, e: EntryView) -> Seq<Seq<EntryView>> {
    if k.len() == 0 {
        sv
    } else if kv.contains(k) {
        sv.update(crate::interner::id_of(kv, k), sv[crate::interner::id_of(kv, k)].push(e))
    } else {
        sv.push(seq![e])
    }
}

/// The prefix list after recording the prefixes of `key` of lengths
/// `i + 1` up to its whole length, each new one appended in that order.
pub open spec fn prefixes_after(pv: Seq<Seq<char>>, key: Seq<char>, i: int) -> Seq<Seq<char>>
    decreases key.len() - i,
{
    if i < 0 || i >= key.len() {
        pv
    } else {
        let p = key.take(i + 1);
        prefixes_after(if pv.contains(p) { pv } else { pv.push(p) }, key, i + 1)
    }
}

/// The prefix set and its list agree, and the list holds each once.
pub open spec fn prefix_pair_ok(set: Set<Seq<char>>, list: Seq<Seq<char>>) -> bool {
    &&& distinct(list)
    &&& forall|p: Seq<char>| #[trigger] set.contains(p) <==> list.contains(p)
}

/// Insert every nonempty prefix of `key` into `prefixes`, listing each new
/// one in `list`.
fn add_prefixes(prefixes: &mut StrSet, list: &mut Vec<String>, key: &str)
    requires
        is_ascii_seq(key@),
        prefix_pair_ok(old(prefixes)@, old(list)@.map_values(|s: String| s@)),
    ensures
        forall|p: Seq<char>| #[trigger] old(prefixes)@.contains(p) ==> final(prefixes)@.contains(p),
        forall|m: int| 0 < m <= key@.len() ==> #[trigger] final(prefixes)@.contains(key@.take(m)),
        prefix_pair_ok(final(prefixes)@, final(list)@.map_values(|s: String| s@)),
        final(list)@.map_values(|s: String| s@) == prefixes_after(old(list)@.map_values(|s: String| s@), key@, 0),
{
    let n = key.unicode_len();
    let mut i: usize = 0;
    while i < n
        invariant
            i <= n,
            n == key@.len(),
            is_ascii_seq(key@),
            prefixes_after(old(list)@.map_values(|s: String| s@), key@, 0)
                == prefixes_after(list@.map_values(|s: String| s@), key@, i as int),
            forall|p: Seq<char>| #[trigger] old(prefixes)@.contains(p) ==> prefixes@.contains(p),
            forall|m: int| 0 < m <= i ==> #[trigger] prefixes@.contains(key@.take(m)),
            prefix_pair_ok(prefixes@, list@.map_values(|s: String| s@)),
        decreases n - i,
    {
        let p = key.substring_ascii(0, i + 1);
        proof {
            assert(p@ =~= key@.take(i + 1));
        }
        if !prefixes.contains(p) {
            let ghost lv = list@.map_values(|s: String| s@);
            prefixes.insert(p.to_owned());
            list.push(p.to_owned());
            proof {
                let nl = list@.map_values(|s: String| s@);
                assert(nl =~= lv.push(p@));
                assert(!lv.contains(p@));
                assert forall|a: int, b: int| 0 <= a < nl.len() && 0 <= b < nl.len() && a != b implies nl[a] != nl[b] by {
                    if a == lv.len() && b < lv.len() {
                        assert(lv.contains(lv[b]));
                    }
                    if b == lv.len() && a < lv.len() {
                        assert(lv.contains(lv[a]));
                    }
                }
                assert forall|q: Seq<char>| #[trigger] prefixes@.contains(q) <==> nl.contains(q) by {
                    if nl.contains(q) && q != p@ {
                        let w = choose|w: int| 0 <= w < nl.len() && nl[w] == q;
                        assert(lv[w] == q);
                        assert(lv.contains(q));
                    }
                    if lv.contains(q) {
                        let w = choose|w: int| 0 <= w < lv.len() && lv[w] == q;
                        assert(nl[w] == q);
                    }
                    if q == p@ {
                        assert(nl[lv.len() as int] == q);
                    }
                }
            }
        }
        assert(key@.subrange(0, i + 1) =~= key@.take(i + 1));
        i += 1;
    }
}

/// `x` capped at `usize::MAX`.
pub open spec fn sat(x: int) -> int {
    if x > usize::MAX {
        usize::MAX as int
    } else {
        x
    }
}

pub proof fn lemma_sat_add(x: int, a: int)
    requires
        x >= 0,
        a >= 0,
    ensures
        sat(sat(x) + a) == sat(x + a),
{
}

/// UTF-8 byte length of `s`.
pub fn byte_count(s: &str) -> (n: usize)
    ensures
        n == crate::interner::utf8_len(s@),
{
    let b = s.as_bytes();
    b.len()
}

pub fn sat_add(acc: usize, x: usize) -> (r: usize)
    ensures
        r == sat(acc + x),
{
    acc.saturating_add(x)
}

/// Total UTF-8 bytes of the strings, plus `extra` for each.
pub open spec fn bytes_plus(v: Seq<Seq<char>>, extra: int) -> int
    decreases v.len(),
{
    if v.len() == 0 {
        0
    } else {
        bytes_plus(v.drop_last(), extra) + crate::interner::utf8_len(v.last()) + extra
    }
}

/// Bytes of the entries: text, pinyin and 40 for each.
pub open spec fn entries_bytes(es: Seq<EntryView>) -> int
    decreases es.len(),
{
    if es.len() == 0 {
        0
    } else {
        entries_bytes(es.drop_last()) + crate::interner::utf8_len(es.last().text)
            + crate::interner::utf8_len(es.last().pinyin) + 40
    }
}

pub open spec fn slots_bytes(ss: Seq<Seq<EntryView>>) -> int
    decreases ss.len(),
{
    if ss.len() == 0 {
        0
    } else {
        slots_bytes(ss.drop_last()) + entries_bytes(ss.last())
    }
}

pub proof fn lemma_bytes_plus_nonneg(v: Seq<Seq<char>>, extra: int)
    requires
        extra >= 0,
    ensures
        bytes_plus(v, extra) >= 0,
    decreases v.len(),
{
    if v.len() > 0 {
        lemma_bytes_plus_nonneg(v.drop_last(), extra);
    }
}

pub proof fn lemma_entries_bytes_nonneg(es: Seq<EntryView>)
    ensures
        entries_bytes(es) >= 0,
    decreases es.len(),
{
    if es.len() > 0 {
        lemma_entries_bytes_nonneg(es.drop_last());
    }
}

pub proof fn lemma_slots_bytes_nonneg(ss: Seq<Seq<EntryView>>)
    ensures
        slots_bytes(ss) >= 0,
    decreases ss.len(),
{
    if ss.len() > 0 {
        lemma_slots_bytes_nonneg(ss.drop_last());
        lemma_entries_bytes_nonneg(ss.last());
    }
}

pub proof fn lemma_matches_empty(m: Map<Seq<char>, Seq<EntryView>>, keys: Seq<char>, start: int, end: int)
    requires
        end <= start,
    ensures
        matches_upto(m, keys, start, end) == Seq::<(int, Seq<EntryView>)>::empty(),
{
}

/// When no substring ending in `(a, b]` is a key, the matches up to `b`
/// are the matches up to `a`.
pub proof fn lemma_matches_stable(
    m: Map<Seq<char>, Seq<EntryView>>,
    keys: Seq<char>,
    start: int,
    a: int,
    b: int,
)
    requires
        start <= a <= b <= keys.len(),
        forall|e: int| a < e <= b ==> !m.contains_key(#[trigger] keys.subrange(start, e)),
    ensures
        matches_upto(m, keys, start, b) == matches_upto(m, keys, start, a),
    decreases b - a,
{
    if b > a {
        lemma_matches_stable(m, keys, start, a, b - 1);
    }
}

} // verus!

verus! {

/// The first segmentation of `keys[pos..]` into syllables of `set` that a
/// longest-match-first search with backtracking finds; None when there is
/// none.
pub open spec fn segment_from(set: Set<Seq<char>>, keys: Seq<char>, pos: int) -> Option<Seq<Seq<char>>>
    decreases keys.len() - pos, keys.len() - pos + 1,
{
    if pos >= keys.len() {
        Some(seq![])
    } else {
        segment_try(set, keys, pos, keys.len() - pos)
    }
}

/// Try syllables `keys[pos..pos + l]` for `l` from the given length down to 1.
pub open spec fn segment_try(set: Set<Seq<char>>, keys: Seq<char>, pos: int, l: int) -> Option<Seq<Seq<char>>>
    decreases keys.len() - pos, l,
{
    if l <= 0 || pos < 0 || pos + l > keys.len() {
        None
    } else {
        let sub = keys.subrange(pos, pos + l);
        let rest = if set.contains(sub) { segment_from(set, keys, pos + l) } else { None };
        match rest {
            Some(r) => Some(seq![sub] + r),
            None => segment_try(set, keys, pos, l - 1),
        }
    }
}

/// The concatenation of a sequence of strings.
pub open spec fn concat(v: Seq<Seq<char>>) -> Seq<char>
    decreases v.len(),
{
    if v.len() == 0 {
        seq![]
    } else {
        concat(v.drop_last()) + v.last()
    }
}

/// Pinyin syllable inventory derived from the dictionary keys; gives the
/// canonical syllable segmentation used for preedit sanity checks.
pub struct SyllableSet {
    syllables: StrSet,
    max_len: usize,
    count: usize,
}

impl View for SyllableSet {
    type V = Set<Seq<char>>;

    closed spec fn view(&self) -> Set<Seq<char>> {
        self.syllables@
    }
}

impl SyllableSet {
    pub closed spec fn wf(&self) -> bool {
        &&& self.syllables@.finite()
        &&& self.count == self.syllables@.len()
        &&& forall|s: Seq<char>| #[trigger] self.syllables@.contains(s) ==> 0 < s.len() <= self.max_len
    }

    pub fn new() -> (r: Self)
        ensures
            r.wf(),
            r@ == Set::<Seq<char>>::empty(),
    {
        SyllableSet { syllables: StrSet::new(), max_len: 0, count: 0 }
    }

    pub fn add(&mut self, syl: &str)
        requires
            old(self).wf(),
            old(self)@.len() < usize::MAX,
        ensures
            final(self).wf(),
            final(self)@ == (if syl@.len() == 0 { old(self)@ } else { old(self)@.insert(syl@) }),
            final(self)@.len() <= old(self)@.len() + 1,
    {
        if syl.is_empty() {
            return;
        }
        let n = syl.unicode_len();
        if n > self.max_len {
            self.max_len = n;
        }
        if !self.syllables.contains(syl) {
            self.syllables.insert(syl.to_owned());
            self.count = self.count + 1;
        }
    }

    pub fn len(&self) -> (r: usize)
        requires
            self.wf(),
        ensures
            r == self@.len(),
    {
        self.count
    }

    /// Longest-match-first segmentation with backtracking; None when the
    /// stream is not a pure pinyin syllable sequence.
    pub fn segment<'a>(&self, keys: &'a str) -> (r: Option<Vec<&'a str>>)
        requires
            self.wf(),
        ensures
            !is_ascii_seq(keys@) ==> r is None,
            is_ascii_seq(keys@) ==> match (r, segment_from(self@, keys@, 0)) {
                (Some(v), Some(s)) => v@.map_values(|x: &'a str| x@) == s,
                (None, None) => true,
                _ => false,
            },
    {
        if !keys.is_ascii() {
            return None;
        }
        let n = keys.unicode_len();
        let mut acc: Vec<&'a str> = Vec::new();
        let ok = self.go(keys, n, 0, &mut acc);
        if ok {
            assert(acc@.map_values(|x: &'a str| x@) =~= Seq::<&'a str>::empty().map_values(|x: &'a str| x@) + segment_from(self@, keys@, 0).unwrap());
            Some(acc)
        } else {
            None
        }
    }

    fn go<'a>(&self, keys: &'a str, n: usize, pos: usize, acc: &mut Vec<&'a str>) -> (ok: bool)
        requires
            self.wf(),
            is_ascii_seq(keys@),
            n == keys@.len(),
            pos <= n,
        ensures
            ok == segment_from(self@, keys@, pos as int) is Some,
            ok ==> final(acc)@.map_values(|x: &'a str| x@) == old(acc)@.map_values(|x: &'a str| x@)
                + segment_from(self@, keys@, pos as int).unwrap(),
            !ok ==> final(acc)@ == old(acc)@,
        decreases n - pos,
    {
        if pos == n {
            assert(old(acc)@.map_values(|x: &'a str| x@) + Seq::<Seq<char>>::empty() =~= old(acc)@.map_values(|x: &'a str| x@));
            return true;
        }
        let limit = if self.max_len <= n - pos { pos + self.max_len } else { n };
        proof {
            self.lemma_try_beyond(keys@, pos as int, n - pos, (limit - pos) as int);
        }
        let mut end = limit;
        while end > pos
            invariant
                self.wf(),
                is_ascii_seq(keys@),
                n == keys@.len(),
                pos < n,
                pos <= end <= limit <= n,
                acc@ == old(acc)@,
                segment_from(self@, keys@, pos as int) == segment_try(self@, keys@, pos as int, (end - pos) as int),
            decreases end - pos,
        {
            let sub = keys.substring_ascii(pos, end);
            if self.syllables.contains(sub) {
                let ghost before = acc@;
                acc.push(sub);
                if self.go(keys, n, end, acc) {
                    proof {
                        let rest = segment_from(self@, keys@, end as int).unwrap();
                        assert(before.push(sub).map_values(|x: &'a str| x@) =~= before.map_values(|x: &'a str| x@).push(sub@));
                        assert(before.map_values(|x: &'a str| x@).push(sub@) + rest =~= before.map_values(|x: &'a str| x@) + (seq![sub@] + rest));
                    }
                    return true;
                }
                acc.pop();
                proof {
                    assert(acc@ =~= before);
                }
            }
            end -= 1;
        }
        false
    }

    /// Lengths past the longest syllable never match.
    proof fn lemma_try_beyond(&self, keys: Seq<char>, pos: int, l: int, cut: int)
        requires
            self.wf(),
            0 <= pos < keys.len(),
            0 <= cut <= l,
            pos + l <= keys.len(),
            cut == self.max_len || cut == l,
        ensures
            segment_try(self@, keys, pos, l) == segment_try(self@, keys, pos, cut),
        decreases l - cut,
    {
        if l > cut {
            assert(!self@.contains(keys.subrange(pos, pos + l)));
            self.lemma_try_beyond(keys, pos, l - 1, cut);
        }
    }
}

/// A found segmentation spells out exactly the keys from `pos` on, using
/// only syllables of the set.
pub proof fn law_segment_sound(set: Set<Seq<char>>, keys: Seq<char>, pos: int)
    requires
        0 <= pos <= keys.len(),
    ensures
        segment_from(set, keys, pos) matches Some(v) ==> concat(v) == keys.subrange(pos, keys.len() as int)
            && forall|i: int| 0 <= i < v.len() ==> set.contains(#[trigger] v[i]),
    decreases keys.len() - pos, keys.len() - pos + 1,
{
    if pos < keys.len() {
        lemma_segment_try_sound(set, keys, pos, keys.len() - pos);
    } else {
        assert(keys.subrange(pos, keys.len() as int) =~= Seq::<char>::empty());
    }
}

proof fn lemma_segment_try_sound(set: Set<Seq<char>>, keys: Seq<char>, pos: int, l: int)
    requires
        0 <= pos < keys.len(),
    ensures
        segment_try(set, keys, pos, l) matches Some(v) ==> concat(v) == keys.subrange(pos, keys.len() as int)
            && forall|i: int| 0 <= i < v.len() ==> set.contains(#[trigger] v[i]),
    decreases keys.len() - pos, l,
{
    if l > 0 && pos + l <= keys.len() {
        let sub = keys.subrange(pos, pos + l);
        if set.contains(sub) {
            law_segment_sound(set, keys, pos + l);
            match segment_from(set, keys, pos + l) {
                Some(r) => {
                    lemma_concat_prepend(sub, r);
                    assert(sub + keys.subrange(pos + l, keys.len() as int) =~= keys.subrange(pos, keys.len() as int));
                    let v = seq![sub] + r;
                    assert forall|i: int| 0 <= i < v.len() implies set.contains(#[trigger] v[i]) by {
                        if i > 0 {
                            assert(v[i] == r[i - 1]);
                        }
                    }
                },
                None => {
                    lemma_segment_try_sound(set, keys, pos, l - 1);
                },
            }
        } else {
            lemma_segment_try_sound(set, keys, pos, l - 1);
        }
    }
}

pub proof fn lemma_concat_prepend(a: Seq<char>, v: Seq<Seq<char>>)
    ensures
        concat(seq![a] + v) == a + concat(v),
    decreases v.len(),
{
    if v.len() == 0 {
        assert(seq![a] + v =~= seq![a]);
        assert(seq![a].drop_last() =~= Seq::<Seq<char>>::empty());
        assert(concat(Seq::<Seq<char>>::empty()) == Seq::<char>::empty());
        assert(concat(seq![a]) == concat(seq![a].drop_last()) + a);
        assert(Seq::<char>::empty() + a =~= a);
        assert(a + Seq::<char>::empty() =~= a);
    } else {
        lemma_concat_prepend(a, v.drop_last());
        assert((seq![a] + v).drop_last() =~= seq![a] + v.drop_last());
        assert(a + concat(v.drop_last()) + v.last() =~= a + (concat(v.drop_last()) + v.last()));
    }
}

/// The search misses no segmentation: whenever the keys from `pos` on can
/// be spelled with syllables of the set, a segmentation is found.
pub proof fn law_segment_complete(set: Set<Seq<char>>, keys: Seq<char>, pos: int, v: Seq<Seq<char>>)
    requires
        0 <= pos <= keys.len(),
        concat(v) == keys.subrange(pos, keys.len() as int),
        forall|i: int| 0 <= i < v.len() ==> set.contains(#[trigger] v[i]) && v[i].len() > 0,
    ensures
        segment_from(set, keys, pos) is Some,
    decreases keys.len() - pos,
{
    if pos < keys.len() {
        assert(v.len() > 0) by {
            if v.len() == 0 {
                assert(concat(v).len() == 0);
            }
        }
        let first = v[0];
        let rest = v.drop_first();
        assert(v =~= seq![first] + rest);
        lemma_concat_prepend(first, rest);
        let l = first.len() as int;
        assert(l <= keys.len() - pos) by {
            assert(concat(v).len() == first.len() + concat(rest).len());
        }
        let c = concat(v);
        let tail = keys.subrange(pos, keys.len() as int);
        assert(c == first + concat(rest));
        assert(first =~= keys.subrange(pos, pos + l)) by {
            assert forall|k: int| 0 <= k < l implies first[k] == keys.subrange(pos, pos + l)[k] by {
                assert(c[k] == first[k]);
                assert(c[k] == tail[k]);
            }
        }
        assert(concat(rest) =~= keys.subrange(pos + l, keys.len() as int)) by {
            assert forall|k: int| 0 <= k < concat(rest).len() implies concat(rest)[k] == keys.subrange(pos + l, keys.len() as int)[k] by {
                assert(c[l + k] == concat(rest)[k]);
                assert(c[l + k] == tail[l + k]);
            }
        }
        assert forall|i: int| 0 <= i < rest.len() implies set.contains(#[trigger] rest[i]) && rest[i].len() > 0 by {
            assert(rest[i] == v[i + 1]);
        }
        law_segment_complete(set, keys, pos + l, rest);
        lemma_try_finds(set, keys, pos, keys.len() - pos, l);
    }
}

/// Trying lengths down from `l` finds something once a length `k <= l`
/// whose syllable leads to a full segmentation exists.
proof fn lemma_try_finds(set: Set<Seq<char>>, keys: Seq<char>, pos: int, l: int, k: int)
    requires
        0 <= pos < keys.len(),
        0 < k <= l <= keys.len() - pos,
        set.contains(keys.subrange(pos, pos + k)),
        segment_from(set, keys, pos + k) is Some,
    ensures
        segment_try(set, keys, pos, l) is Some,
    decreases l,
{
    if l > k {
        let sub = keys.subrange(pos, pos + l);
        if !(set.contains(sub) && segment_from(set, keys, pos + l) is Some) {
            lemma_try_finds(set, keys, pos, l - 1, k);
        }
    }
}

} // verus!
