//! The float-free half of the beam-search decoder: turning a backpointer
//! path into the candidate's surface text, preedit and flags, and ordering
//! full-span and prefix candidates. Scoring stays with the caller.

use vstd::prelude::*;
use vstd::utf8::encode_utf8;

use crate::text::{push_char, split_char, split_spec, to_chars};

verus! {

broadcast use vstd::string::group_string_axioms;

/// Byte length of a string, as `str::len` reports it.
pub open spec fn byte_len(s: Seq<char>) -> usize {
    encode_utf8(s).len() as usize
}

/// Hanzi text: which characters were not typed, judged by reading
/// coverage. Each character pairs with its syllable; a syllable the typed
/// budget fully covers is real, the first one it does not cover is ghost,
/// and so is everything after it.
pub open spec fn ghost_zip(chars: Seq<char>, syls: Seq<Seq<char>>, budget: int) -> Seq<char>
    decreases chars.len(),
{
    if chars.len() == 0 || syls.len() == 0 {
        seq![]
    } else if budget >= byte_len(syls[0]) {
        ghost_zip(chars.drop_first(), syls.drop_first(), budget - byte_len(syls[0]))
    } else {
        seq![chars[0]] + ghost_zip(chars.drop_first(), syls.drop_first(), 0)
    }
}

/// The not-yet-typed part of a completed arc's text: for ASCII text the
/// byte suffix after what was typed (empty if the typed length overruns
/// it), for hanzi the uncovered characters.
pub open spec fn ghost_spec(text: Seq<char>, spaced: Seq<char>, typed: usize) -> Seq<char> {
    if vstd::utf8::is_ascii_chars(text) {
        if typed <= text.len() {
            text.skip(typed as int)
        } else {
            seq![]
        }
    } else {
        ghost_zip(text, split_spec(spaced, ' '), typed as int)
    }
}


/// One node of the decoder's backpointer arena.
pub struct PathNode<'a> {
    /// Index of the previous node on the path, -1 at the path start.
    pub parent: i32,
    pub text: &'a str,
    pub pinyin: &'a str,
    /// English-word node: a space goes between adjacent ones.
    pub en: bool,
    /// Typing-ahead arc.
    pub completed: bool,
    /// For completed arcs: key bytes the user actually typed.
    pub typed_len: u16,
    /// Fuzzy-pinyin arc.
    pub fuzzy: bool,
    /// Fallback letter arc (incomplete syllable).
    pub raw: bool,
}

/// A candidate read off one decoder path (everything but its score).
pub struct Materialized {
    pub text: String,
    pub preedit: String,
    /// Key bytes this candidate consumes; less than the input length for
    /// prefix candidates.
    pub len: usize,
    /// Path ends in a typing-ahead completion: the candidate contains text
    /// the user did NOT type.
    pub completed: bool,
    /// The not-yet-typed part of the candidate, in text space; empty for
    /// non-completed paths.
    pub ghost_text: String,
    /// Path crossed a fuzzy-pinyin arc.
    pub fuzzy: bool,
    /// Path contains raw fallback letters.
    pub raw: bool,
}

/// Parent pointers always point backwards, so every path ends.
pub open spec fn arena_wf<'a>(nodes: Seq<PathNode<'a>>) -> bool {
    forall|i: int| 0 <= i < nodes.len() ==> -1 <= (#[trigger] nodes[i]).parent < i
}

/// The path ending at `idx`, as node indices from its start.
pub open spec fn path_of<'a>(nodes: Seq<PathNode<'a>>, idx: int) -> Seq<int>
    decreases idx + 1,
{
    if idx < 0 || idx >= nodes.len() {
        seq![]
    } else if nodes[idx].parent >= idx || nodes[idx].parent < -1 {
        seq![idx]
    } else {
        path_of(nodes, nodes[idx].parent as int).push(idx)
    }
}

/// Surface text of a path: node texts, with a space between two adjacent
/// English words ("timewindow" -> "time window").
pub open spec fn path_text<'a>(nodes: Seq<PathNode<'a>>, p: Seq<int>) -> Seq<char>
    decreases p.len(),
{
    if p.len() == 0 {
        seq![]
    } else {
        let node = nodes[p.last()];
        let sep = if p.len() >= 2 && nodes[p[p.len() - 2]].en && node.en { seq![' '] } else { seq![] };
        path_text(nodes, p.drop_last()) + sep + node.text@
    }
}

/// A completed arc's reading with the boundary marker `‥` placed where the
/// user's own typing ended: before the reading character at which `budget`
/// non-space characters have been consumed (`None`: already placed).
pub open spec fn mark_typed(p: Seq<char>, budget: Option<int>) -> Seq<char>
    decreases p.len(),
{
    if p.len() == 0 {
        if budget == Some(0int) { seq!['‥'] } else { seq![] }
    } else {
        let c = p[0];
        match budget {
            Some(b) => if b == 0 {
                seq!['‥', c] + mark_typed(p.drop_first(), None)
            } else {
                seq![c] + mark_typed(p.drop_first(), Some(if c != ' ' { b - 1 } else { b }))
            },
            None => seq![c] + mark_typed(p.drop_first(), None),
        }
    }
}

/// A node's part of the preedit line.
pub open spec fn node_preedit<'a>(node: PathNode<'a>) -> Seq<char> {
    if node.completed {
        mark_typed(node.pinyin@, Some(node.typed_len as int))
    } else {
        node.pinyin@
    }
}

/// Preedit of a path: node readings separated by single spaces.
pub open spec fn path_preedit<'a>(nodes: Seq<PathNode<'a>>, p: Seq<int>) -> Seq<char>
    decreases p.len(),
{
    if p.len() == 0 {
        seq![]
    } else {
        let prev = path_preedit(nodes, p.drop_last());
        let sep = if prev.len() > 0 { seq![' '] } else { seq![] };
        prev + sep + node_preedit(nodes[p.last()])
    }
}

/// Some node of the path has the property.
pub open spec fn path_any<'a>(nodes: Seq<PathNode<'a>>, p: Seq<int>, f: spec_fn(PathNode<'a>) -> bool) -> bool {
    exists|k: int| 0 <= k < p.len() && f(nodes[#[trigger] p[k]])
}

/// A path's flag is set as soon as any one node of it has the property,
/// wherever that node stands, and extending a path keeps every flag it
/// had: the completed, fuzzy and raw flags of a candidate cover its whole
/// path, not just its last arc.
pub proof fn law_path_flags<'a>(nodes: Seq<PathNode<'a>>, p: Seq<int>, x: int, f: spec_fn(PathNode<'a>) -> bool, k: int)
    ensures
        0 <= k < p.len() && f(nodes[p[k]]) ==> path_any(nodes, p, f),
        path_any(nodes, p.push(x), f) == (path_any(nodes, p, f) || f(nodes[x])),
        !path_any(nodes, p, f) ==> forall|q: int| 0 <= q < p.len() ==> !f(nodes[#[trigger] p[q]]),
        p.len() == 0 ==> !path_any(nodes, p, f),
{
    let p1 = p.push(x);
    if path_any(nodes, p, f) {
        let q = choose|q: int| 0 <= q < p.len() && f(nodes[#[trigger] p[q]]);
        assert(p1[q] == p[q]);
    }
    if f(nodes[x]) {
        assert(p1[p.len() as int] == x);
    }
    if path_any(nodes, p1, f) {
        let q = choose|q: int| 0 <= q < p1.len() && f(nodes[#[trigger] p1[q]]);
        if q < p.len() {
            assert(p[q] == p1[q]);
        }
    }
}

/// Ghost text of a path: that of its last completed node (empty if none).
pub open spec fn path_ghost<'a>(nodes: Seq<PathNode<'a>>, p: Seq<int>) -> Seq<char>
    decreases p.len(),
{
    if p.len() == 0 {
        seq![]
    } else {
        let node = nodes[p.last()];
        if node.completed {
            ghost_spec(node.text@, node.pinyin@, node.typed_len as usize)
        } else {
            path_ghost(nodes, p.drop_last())
        }
    }
}

/// Which part of a completed arc's text the user has NOT typed yet
/// ("cesh" over 测试: ce complete -> 测 real, shi cut at sh -> 试 ghost).
/// English words are a plain byte suffix.
pub fn ghost_of(text: &str, spaced: &str, typed: usize) -> (g: String)
    ensures
        g@ == ghost_spec(text@, spaced@, typed),
{
    let chars = to_chars(text);
    if text.is_ascii() {
        let n = chars.len();
        if typed <= n {
            let mut g = String::new();
            let mut i = typed;
            while i < n
                invariant
                    typed <= i <= n == chars@.len(),
                    g@ == chars@.subrange(typed as int, i as int),
                decreases n - i,
            {
                push_char(&mut g, chars[i]);
                assert(chars@.subrange(typed as int, i + 1) =~= chars@.subrange(typed as int, i as int).push(chars@[i as int]));
                i += 1;
            }
            assert(chars@.subrange(typed as int, n as int) =~= text@.skip(typed as int));
            return g;
        }
        return String::new();
    }
    let syls = split_char(spaced, ' ');
    let ghost sv = split_spec(spaced@, ' ');
    let mut budget = typed;
    let mut ghost_text = String::new();
    let mut i: usize = 0;
    assert(chars@.skip(0) =~= chars@);
    assert(sv.skip(0) =~= sv);
    assert(ghost_text@ + ghost_zip(text@, sv, typed as int) =~= ghost_zip(text@, sv, typed as int));
    while i < chars.len() && i < syls.len()
        invariant
            chars@ == text@,
            syls@.len() == sv.len(),
            forall|k: int| 0 <= k < syls@.len() ==> #[trigger] syls@[k]@ == sv[k],
            i <= chars@.len(),
            i <= syls@.len(),
            ghost_zip(text@, sv, typed as int) == ghost_text@ + ghost_zip(chars@.skip(i as int), sv.skip(i as int), budget as int),
        decreases chars@.len() - i,
    {
        let syl_len = syls[i].as_str().len();
        proof {
            assert(chars@.skip(i as int).drop_first() =~= chars@.skip(i + 1));
            assert(sv.skip(i as int).drop_first() =~= sv.skip(i + 1));
            assert(sv.skip(i as int)[0] == sv[i as int]);
        }
        if budget >= syl_len {
            budget = budget - syl_len;
        } else {
            proof {
                assert(ghost_text@.push(chars@[i as int]) + ghost_zip(chars@.skip(i + 1), sv.skip(i + 1), 0)
                    =~= ghost_text@ + (seq![chars@.skip(i as int)[0]] + ghost_zip(chars@.skip(i + 1), sv.skip(i + 1), 0)));
            }
            push_char(&mut ghost_text, chars[i]);
            budget = 0;
        }
        i += 1;
    }
    proof {
        assert(ghost_text@ + Seq::<char>::empty() =~= ghost_text@);
    }
    ghost_text
}


/// Append a completed arc's reading with the typed-boundary marker.
fn push_marked(preedit: &mut String, pinyin: &str, typed: usize)
    requires
        typed < usize::MAX,
    ensures
        final(preedit)@ == old(preedit)@ + mark_typed(pinyin@, Some(typed as int)),
{
    let chars = to_chars(pinyin);
    let ghost base = preedit@;
    let mut budget = typed;
    let mut i: usize = 0;
    assert(chars@.skip(0) =~= chars@);
    assert(base + mark_typed(pinyin@, Some(typed as int)) =~= preedit@ + mark_typed(chars@.skip(0), Some(budget as int)));
    while i < chars.len()
        invariant
            chars@ == pinyin@,
            i <= chars@.len(),
            base + mark_typed(pinyin@, Some(typed as int)) == preedit@ + mark_typed(
                chars@.skip(i as int),
                if budget == usize::MAX { None } else { Some(budget as int) },
            ),
        decreases chars@.len() - i,
    {
        let c = chars[i];
        let ghost st = if budget == usize::MAX { None } else { Some(budget as int) };
        let ghost before = preedit@;
        proof {
            assert(chars@.skip(i as int).drop_first() =~= chars@.skip(i + 1));
            assert(chars@.skip(i as int)[0] == c);
        }
        if budget == 0 {
            push_char(preedit, '‥');
            budget = usize::MAX;
        }
        if c != ' ' && budget != usize::MAX {
            budget -= 1;
        }
        push_char(preedit, c);
        proof {
            let rest = mark_typed(chars@.skip(i + 1), if budget == usize::MAX { None } else { Some(budget as int) });
            if st == Some(0int) {
                assert(preedit@ =~= before + seq!['‥', c]);
                assert(before + (seq!['‥', c] + rest) =~= preedit@ + rest);
            } else {
                assert(preedit@ =~= before + seq![c]);
                assert(before + (seq![c] + rest) =~= preedit@ + rest);
            }
        }
        i += 1;
    }
    if budget == 0 {
        push_char(preedit, '‥'); // typed exactly consumed
    }
    proof {
        if budget == 0 {
            assert(base + mark_typed(pinyin@, Some(typed as int)) =~= preedit@);
        } else {
            assert(base + mark_typed(pinyin@, Some(typed as int)) =~= preedit@);
        }
    }
}

/// Append `s` to `out`.
fn push_str(out: &mut String, s: &str)
    ensures
        final(out)@ == old(out)@ + s@,
{
    let chars = to_chars(s);
    let ghost base = out@;
    let mut i: usize = 0;
    while i < chars.len()
        invariant
            chars@ == s@,
            i <= chars@.len(),
            out@ == base + chars@.take(i as int),
        decreases chars@.len() - i,
    {
        push_char(out, chars[i]);
        assert(chars@.take(i + 1) =~= chars@.take(i as int).push(chars@[i as int]));
        i += 1;
    }
    assert(chars@.take(i as int) =~= chars@);
}

/// Read a candidate off the path ending at `idx` (-1: the empty path):
/// surface text, preedit with the typed-boundary marker of a completed
/// arc, and the path flags. `len` is the key span the path covers.
pub fn materialize<'a>(nodes: &[PathNode<'a>], idx: i32, len: usize) -> (m: Materialized)
    requires
        arena_wf(nodes@),
        -1 <= idx < nodes@.len(),
    ensures
        m.text@ == path_text(nodes@, path_of(nodes@, idx as int)),
        m.preedit@ == path_preedit(nodes@, path_of(nodes@, idx as int)),
        m.len == len,
        m.completed == path_any(nodes@, path_of(nodes@, idx as int), |n: PathNode<'a>| n.completed),
        m.ghost_text@ == path_ghost(nodes@, path_of(nodes@, idx as int)),
        m.fuzzy == path_any(nodes@, path_of(nodes@, idx as int), |n: PathNode<'a>| n.fuzzy),
        m.raw == path_any(nodes@, path_of(nodes@, idx as int), |n: PathNode<'a>| n.raw),
{
    let ghost full = path_of(nodes@, idx as int);
    let mut rev: Vec<usize> = Vec::new();
    let mut cur = idx;
    while cur >= 0
        invariant
            arena_wf(nodes@),
            -1 <= cur < nodes@.len(),
            full == path_of(nodes@, cur as int) + Seq::new(rev@.len(), |k: int| rev@[rev@.len() - 1 - k] as int),
            forall|k: int| 0 <= k < rev@.len() ==> #[trigger] rev@[k] < nodes@.len(),
        decreases cur + 1,
    {
        let ghost old_rev = rev@;
        let node = &nodes[cur as usize];
        rev.push(cur as usize);
        proof {
            assert(path_of(nodes@, cur as int) == path_of(nodes@, node.parent as int).push(cur as int));
            assert(path_of(nodes@, cur as int) + Seq::new(old_rev.len(), |k: int| old_rev[old_rev.len() - 1 - k] as int)
                =~= path_of(nodes@, node.parent as int) + Seq::new(rev@.len(), |k: int| rev@[rev@.len() - 1 - k] as int));
        }
        cur = node.parent;
    }
    assert(full =~= Seq::new(rev@.len(), |k: int| rev@[rev@.len() - 1 - k] as int));
    let mut text = String::new();
    let mut preedit = String::new();
    let mut prev_en = false;
    let mut completed = false;
    let mut ghost_text = String::new();
    let mut fuzzy = false;
    let mut raw = false;
    let n = rev.len();
    let mut j: usize = 0;
    assert(full.take(0) =~= Seq::<int>::empty());
    while j < n
        invariant
            n == rev@.len() == full.len(),
            j <= n,
            forall|k: int| 0 <= k < n ==> #[trigger] full[k] == rev@[n - 1 - k] as int,
            forall|k: int| 0 <= k < rev@.len() ==> #[trigger] rev@[k] < nodes@.len(),
            text@ == path_text(nodes@, full.take(j as int)),
            preedit@ == path_preedit(nodes@, full.take(j as int)),
            prev_en == (j > 0 && nodes@[full[j - 1]].en),
            completed == path_any(nodes@, full.take(j as int), |n: PathNode<'a>| n.completed),
            ghost_text@ == path_ghost(nodes@, full.take(j as int)),
            fuzzy == path_any(nodes@, full.take(j as int), |n: PathNode<'a>| n.fuzzy),
            raw == path_any(nodes@, full.take(j as int), |n: PathNode<'a>| n.raw),
        decreases n - j,
    {
        let node = &nodes[rev[n - 1 - j]];
        let ghost q = full.take(j as int);
        let ghost q1 = full.take(j + 1);
        proof {
            assert(q1.drop_last() =~= q);
            assert(q1.last() == full[j as int]);
            assert(*node == nodes@[full[j as int]]);
            if j > 0 {
                assert(q1[q1.len() - 2] == full[j - 1]);
            }
        }
        let ghost text0 = text@;
        if prev_en && node.en {
            push_char(&mut text, ' ');
        }
        push_str(&mut text, node.text);
        proof {
            if prev_en && node.en {
                assert(text@ =~= text0 + seq![' '] + node.text@);
            } else {
                assert(text@ =~= text0 + Seq::<char>::empty() + node.text@);
            }
        }
        prev_en = node.en;
        proof {
            assert forall|f: spec_fn(PathNode<'a>) -> bool|
                path_any(nodes@, q1, f) == (path_any(nodes@, q, f) || f(*node)) by {
                if path_any(nodes@, q, f) {
                    let k = choose|k: int| 0 <= k < q.len() && f(nodes@[#[trigger] q[k]]);
                    assert(q1[k] == q[k]);
                }
                if f(*node) {
                    assert(q1[j as int] == full[j as int]);
                }
                if path_any(nodes@, q1, f) {
                    let k = choose|k: int| 0 <= k < q1.len() && f(nodes@[#[trigger] q1[k]]);
                    if k < j {
                        assert(q[k] == q1[k]);
                    }
                }
            }
        }
        fuzzy = fuzzy || node.fuzzy;
        raw = raw || node.raw;
        let ghost pre0 = preedit@;
        if !preedit.as_str().is_empty() {
            push_char(&mut preedit, ' ');
        }
        let ghost pre1 = preedit@;
        if node.completed {
            completed = true;
            ghost_text = ghost_of(node.text, node.pinyin, node.typed_len as usize);
            push_marked(&mut preedit, node.pinyin, node.typed_len as usize);
        } else {
            push_str(&mut preedit, node.pinyin);
        }
        proof {
            if pre0.len() > 0 {
                assert(pre1 =~= pre0 + seq![' ']);
            } else {
                assert(pre1 =~= pre0 + Seq::<char>::empty());
            }
            assert(preedit@ =~= pre1 + node_preedit(*node));
        }
        j += 1;
    }
    assert(full.take(n as int) =~= full);
    Materialized { text, preedit, len, completed, ghost_text, fuzzy, raw }
}


/// How many prefix candidates join the list, and where: the first
/// `FULL_BEFORE_PREFIX` full-span candidates stay on top (the whole-sentence
/// reading is the headline), prefixes follow (longest first, the natural
/// repair order), then the remaining full-span variants.
pub const PREFIX_CAP: usize = 6;
pub const FULL_BEFORE_PREFIX: usize = 3;

/// Headline full readings, then the prefix repairs, then the long tail of
/// full-span variants.
pub fn order_candidates<T>(full: Vec<T>, prefixes: Vec<T>) -> (r: Vec<T>)
    ensures
        r@ == full@.take(if full@.len() < FULL_BEFORE_PREFIX { full@.len() as int } else { FULL_BEFORE_PREFIX as int })
            + prefixes@
            + full@.skip(if full@.len() < FULL_BEFORE_PREFIX { full@.len() as int } else { FULL_BEFORE_PREFIX as int }),
{
    let mut full = full;
    let mut prefixes = prefixes;
    let cut = if full.len() < FULL_BEFORE_PREFIX { full.len() } else { FULL_BEFORE_PREFIX };
    let ghost f = full@;
    let mut rest = full.split_off(cut);
    full.append(&mut prefixes);
    full.append(&mut rest);
    full
}

} // verus!
