//! hanzi -> known toneless syllables, from every single-char dictionary
//! entry; used to align committed text with the raw key stream.

use vstd::prelude::*;
use vstd::utf8::encode_utf8;

use crate::tables::CharIdMap;

verus! {

broadcast use vstd::string::group_string_axioms;

/// Byte-lexicographic "strictly less" (the order of `str`).
pub open spec fn bytes_lt(a: Seq<u8>, b: Seq<u8>) -> bool
    decreases a.len(),
{
    if a.len() == 0 {
        b.len() > 0
    } else if b.len() == 0 {
        false
    } else if a[0] != b[0] {
        a[0] < b[0]
    } else {
        bytes_lt(a.drop_first(), b.drop_first())
    }
}

/// Reading order: longer (in bytes) first, then lexicographic, so greedy
/// alignment prefers maximal syllables.
pub open spec fn reading_before(a: Seq<char>, b: Seq<char>) -> bool {
    let (x, y) = (encode_utf8(a), encode_utf8(b));
    x.len() > y.len() || (x.len() == y.len() && bytes_lt(x, y))
}

pub open spec fn readings_sorted(v: Seq<Seq<char>>) -> bool {
    forall|i: int, j: int| 0 <= i < j < v.len() ==> reading_before(#[trigger] v[i], #[trigger] v[j])
}

pub open spec fn no_dups(v: Seq<Seq<char>>) -> bool {
    forall|i: int, j: int| 0 <= i < j < v.len() ==> #[trigger] v[i] != #[trigger] v[j]
}

pub proof fn lemma_bytes_lt_irrefl(a: Seq<u8>)
    ensures
        !bytes_lt(a, a),
    decreases a.len(),
{
    if a.len() > 0 {
        lemma_bytes_lt_irrefl(a.drop_first());
    }
}

pub proof fn lemma_bytes_lt_total(a: Seq<u8>, b: Seq<u8>)
    ensures
        a != b ==> (bytes_lt(a, b) || bytes_lt(b, a)),
        !(bytes_lt(a, b) && bytes_lt(b, a)),
    decreases a.len(),
{
    if a.len() > 0 && b.len() > 0 && a[0] == b[0] {
        lemma_bytes_lt_total(a.drop_first(), b.drop_first());
        if a != b {
            assert(a.drop_first() != b.drop_first()) by {
                if a.drop_first() == b.drop_first() {
                    assert(a =~= seq![a[0]] + a.drop_first());
                    assert(b =~= seq![b[0]] + b.drop_first());
                }
            }
        }
    } else if a.len() == 0 && b.len() == 0 {
        assert(a =~= b);
    }
}

pub proof fn lemma_bytes_lt_trans(a: Seq<u8>, b: Seq<u8>, c: Seq<u8>)
    requires
        bytes_lt(a, b),
        bytes_lt(b, c),
    ensures
        bytes_lt(a, c),
    decreases a.len(),
{
    if a.len() > 0 && b.len() > 0 && c.len() > 0 && a[0] == b[0] && b[0] == c[0] {
        lemma_bytes_lt_trans(a.drop_first(), b.drop_first(), c.drop_first());
    }
}

/// The reading order is a strict total order on distinct strings.
pub proof fn lemma_reading_order(a: Seq<char>, b: Seq<char>, c: Seq<char>)
    ensures
        a != b ==> (reading_before(a, b) || reading_before(b, a)),
        !(reading_before(a, b) && reading_before(b, a)),
        !reading_before(a, a),
        reading_before(a, b) && reading_before(b, c) ==> reading_before(a, c),
{
    vstd::utf8::encode_utf8_decode_utf8(a);
    vstd::utf8::encode_utf8_decode_utf8(b);
    lemma_bytes_lt_total(encode_utf8(a), encode_utf8(b));
    lemma_bytes_lt_irrefl(encode_utf8(a));
    if reading_before(a, b) && reading_before(b, c) {
        let (x, y, z) = (encode_utf8(a), encode_utf8(b), encode_utf8(c));
        if x.len() == y.len() && y.len() == z.len() {
            lemma_bytes_lt_trans(x, y, z);
        }
    }
}

/// Byte comparison of two strings in reading order.
fn before(a: &String, b: &String) -> (r: bool)
    ensures
        r == reading_before(a@, b@),
{
    let x = a.as_str().as_bytes();
    let y = b.as_str().as_bytes();
    if x.len() != y.len() {
        return x.len() > y.len();
    }
    let mut i: usize = 0;
    assert(x@.skip(0) =~= x@);
    assert(y@.skip(0) =~= y@);
    while i < x.len()
        invariant
            x@ == encode_utf8(a@),
            y@ == encode_utf8(b@),
            x@.len() == y@.len(),
            i <= x@.len(),
            forall|k: int| 0 <= k < i ==> x@[k] == y@[k],
            bytes_lt(x@, y@) == bytes_lt(x@.skip(i as int), y@.skip(i as int)),
        decreases x@.len() - i,
    {
        proof {
            assert(x@.skip(i as int).drop_first() =~= x@.skip(i + 1));
            assert(y@.skip(i as int).drop_first() =~= y@.skip(i + 1));
        }
        if x[i] != y[i] {
            return x[i] < y[i];
        }
        i += 1;
    }
    false
}

/// Readings per hanzi.
pub struct CharReadings {
    index: CharIdMap,
    lists: Vec<Vec<String>>,
    chars: Vec<char>,
}

pub open spec fn strings_view(v: Seq<String>) -> Seq<Seq<char>> {
    v.map_values(|s: String| s@)
}

impl View for CharReadings {
    type V = Map<char, Seq<Seq<char>>>;

    closed spec fn view(&self) -> Map<char, Seq<Seq<char>>> {
        Map::new(
            |c: char| self.index@.contains_key(c),
            |c: char| strings_view(self.lists@[self.index@[c] as int]@),
        )
    }
}

impl CharReadings {
    pub closed spec fn wf(&self) -> bool {
        &&& self.lists@.len() == self.chars@.len() < 0xffff_ffffu32
        &&& forall|c: char| #[trigger] self.index@.contains_key(c) ==> self.index@[c] < self.lists@.len()
            && self.chars@[self.index@[c] as int] == c
        &&& forall|k: int| 0 <= k < self.chars@.len() ==> #[trigger] self.index@.contains_key(self.chars@[k])
            && self.index@[self.chars@[k]] == k
        &&& forall|k: int| 0 <= k < self.lists@.len() ==> no_dups(strings_view(#[trigger] self.lists@[k]@))
    }

    /// Number of hanzi with readings.
    pub closed spec fn n_chars(&self) -> nat {
        self.chars@.len()
    }

    pub fn new() -> (r: Self)
        ensures
            r.wf(),
            r@ == Map::<char, Seq<Seq<char>>>::empty(),
            r.n_chars() == 0,
    {
        let r = CharReadings { index: CharIdMap::new(), lists: Vec::new(), chars: Vec::new() };
        assert(r@ =~= Map::<char, Seq<Seq<char>>>::empty());
        r
    }

    /// The known readings of a hanzi.
    pub fn get(&self, c: char) -> (r: Option<&Vec<String>>)
        requires
            self.wf(),
        ensures
            r matches Some(v) ==> self@.contains_key(c) && strings_view(v@) == self@[c],
            r is None ==> !self@.contains_key(c),
    {
        match self.index.get(c) {
            Some(k) => Some(&self.lists[k as usize]),
            None => None,
        }
    }

    /// Record a reading of `c` (kept once).
    pub fn add(&mut self, c: char, reading: &str)
        requires
            old(self).wf(),
            old(self).n_chars() + 1 < 0xffff_ffffu32,
        ensures
            final(self).wf(),
            final(self).n_chars() <= old(self).n_chars() + 1,
            final(self)@ == old(self)@.insert(
                c,
                if !old(self)@.contains_key(c) {
                    seq![reading@]
                } else if old(self)@[c].contains(reading@) {
                    old(self)@[c]
                } else {
                    old(self)@[c].push(reading@)
                },
            ),
    {
        let ghost old_view = self@;
        match self.index.get(c) {
            Some(k) => {
                let k = k as usize;
                let mut found = false;
                let mut i: usize = 0;
                while i < self.lists[k].len()
                    invariant
                        k < self.lists@.len(),
                        i <= self.lists@[k as int]@.len(),
                        found == exists|j: int| 0 <= j < i && (#[trigger] self.lists@[k as int]@[j])@ == reading@,
                    decreases self.lists@[k as int]@.len() - i,
                {
                    if crate::text::str_eq(self.lists[k][i].as_str(), reading) {
                        found = true;
                    }
                    i += 1;
                }
                proof {
                    let sv = strings_view(self.lists@[k as int]@);
                    if found {
                        let j = choose|j: int| 0 <= j < i && (#[trigger] self.lists@[k as int]@[j])@ == reading@;
                        assert(sv[j] == reading@);
                    } else {
                        assert forall|j: int| 0 <= j < sv.len() implies sv[j] != reading@ by {
                            assert(self.lists@[k as int]@[j]@ == sv[j]);
                        }
                    }
                }
                if !found {
                    let ghost before = self.lists@[k as int]@;
                    self.lists[k].push(reading.to_owned());
                    proof {
                        assert(strings_view(self.lists@[k as int]@) =~= strings_view(before).push(reading@));
                        assert(no_dups(strings_view(self.lists@[k as int]@))) by {
                            assert forall|a: int, b: int| 0 <= a < b < strings_view(self.lists@[k as int]@).len()
                                implies #[trigger] strings_view(self.lists@[k as int]@)[a] != #[trigger] strings_view(self.lists@[k as int]@)[b] by {
                                if b == before.len() {
                                    assert(strings_view(before).contains(strings_view(before)[a]));
                                }
                            }
                        }
                        assert(self@ =~= old_view.insert(c, old_view[c].push(reading@)));
                    }
                } else {
                    proof {
                        assert(self@ =~= old_view.insert(c, old_view[c]));
                    }
                }
            },
            None => {
                let k = self.lists.len();
                let mut v: Vec<String> = Vec::new();
                v.push(reading.to_owned());
                self.lists.push(v);
                self.chars.push(c);
                self.index.insert(c, k as u32);
                proof {
                    assert(strings_view(self.lists@[k as int]@) =~= seq![reading@]);
                    assert(self@ =~= old_view.insert(c, seq![reading@]));
                }
            },
        }
    }

    /// Sort every reading list longest first (then lexicographically).
    pub fn sort_readings(&mut self)
        requires
            old(self).wf(),
        ensures
            final(self).wf(),
            final(self).n_chars() == old(self).n_chars(),
            final(self)@.dom() == old(self)@.dom(),
            forall|c: char| #[trigger] final(self)@.contains_key(c) ==> readings_sorted(final(self)@[c])
                && final(self)@[c].to_set() == old(self)@[c].to_set()
                && final(self)@[c].len() == old(self)@[c].len(),
    {
        let ghost old_view = self@;
        let mut k: usize = 0;
        while k < self.lists.len()
            invariant
                self.wf(),
                self.chars@.len() == old(self).chars@.len(),
                self.index@ == old(self).index@,
                self.chars@ == old(self).chars@,
                k <= self.lists@.len(),
                forall|t: int| 0 <= t < k ==> readings_sorted(strings_view(#[trigger] self.lists@[t]@)),
                forall|t: int| 0 <= t < self.lists@.len() ==> strings_view(#[trigger] self.lists@[t]@).to_set()
                    == strings_view(old(self).lists@[t]@).to_set()
                    && self.lists@[t]@.len() == old(self).lists@[t]@.len(),
            decreases self.lists@.len() - k,
        {
            let mut v: Vec<String> = Vec::new();
            std::mem::swap(&mut v, &mut self.lists[k]);
            let sorted = sort_by_reading(v);
            self.lists.set(k, sorted);
            k += 1;
        }
        proof {
            assert forall|c: char| #[trigger] self@.contains_key(c) implies readings_sorted(self@[c])
                && self@[c].to_set() == old_view[c].to_set() && self@[c].len() == old_view[c].len() by {
                let t = self.index@[c] as int;
                assert(self.lists@[t]@.len() == old(self).lists@[t]@.len());
            }
        }
    }
}

/// Stable insertion sort in reading order.
fn sort_by_reading(v: Vec<String>) -> (r: Vec<String>)
    requires
        no_dups(strings_view(v@)),
    ensures
        readings_sorted(strings_view(r@)),
        no_dups(strings_view(r@)),
        strings_view(r@).to_set() == strings_view(v@).to_set(),
        r@.len() == v@.len(),
{
    let mut out: Vec<String> = Vec::new();
    let mut v = v;
    let ghost orig = strings_view(v@);
    let mut i: usize = 0;
    let n = v.len();
    while i < n
        invariant
            n == orig.len(),
            v@.len() == n,
            forall|t: int| i <= t < n ==> #[trigger] v@[t]@ == orig[t],
            no_dups(orig),
            i <= n,
            out@.len() == i,
            readings_sorted(strings_view(out@)),
            no_dups(strings_view(out@)),
            strings_view(out@).to_set() == orig.take(i as int).to_set(),
        decreases n - i,
    {
        let mut x = String::new();
        std::mem::swap(&mut x, &mut v[i]);
        let ghost xs = x@;
        let ghost ov = strings_view(out@);
        let mut p: usize = 0;
        while p < out.len() && !before(&x, &out[p])
            invariant
                p <= out@.len(),
                x@ == xs,
                forall|t: int| 0 <= t < p ==> !reading_before(xs, #[trigger] strings_view(out@)[t]),
            decreases out@.len() - p,
        {
            p += 1;
        }
        proof {
            assert(!ov.contains(xs)) by {
                if ov.contains(xs) {
                    assert(orig.take(i as int).to_set().contains(xs));
                    let j = choose|j: int| 0 <= j < i && #[trigger] orig.take(i as int)[j] == xs;
                    assert(orig[j] == orig[i as int]);
                }
            }
            assert forall|t: int| p <= t < ov.len() implies reading_before(xs, #[trigger] ov[t]) by {
                assert(reading_before(xs, ov[p as int]));
                if t > p {
                    assert(reading_before(ov[p as int], ov[t]));
                    lemma_reading_order(xs, ov[p as int], ov[t]);
                }
            }
            assert forall|t: int| 0 <= t < p implies reading_before(#[trigger] ov[t], xs) by {
                assert(ov.contains(ov[t]));
                lemma_reading_order(xs, ov[t], xs);
            }
        }
        out.insert(p, x);
        proof {
            let nv = strings_view(out@);
            assert(nv =~= ov.insert(p as int, xs));
            assert(readings_sorted(nv)) by {
                assert forall|a: int, b: int| 0 <= a < b < nv.len() implies reading_before(#[trigger] nv[a], #[trigger] nv[b]) by {
                    if a < p && b > p {
                        lemma_reading_order(ov[a], xs, ov[b - 1]);
                    }
                }
            }
            assert(no_dups(nv)) by {
                assert forall|a: int, b: int| 0 <= a < b < nv.len() implies #[trigger] nv[a] != #[trigger] nv[b] by {
                    lemma_reading_order(nv[a], nv[b], nv[b]);
                }
            }
            assert(orig.take(i + 1) =~= orig.take(i as int).push(xs));
            assert(nv.to_set() =~= ov.to_set().insert(xs)) by {
                assert forall|s: Seq<char>| nv.to_set().contains(s) <==> ov.to_set().insert(xs).contains(s) by {
                    if nv.contains(s) {
                        let j = choose|j: int| 0 <= j < nv.len() && nv[j] == s;
                        if j < p { assert(ov[j] == s); } else if j > p { assert(ov[j - 1] == s); }
                    }
                    if ov.contains(s) {
                        let j = choose|j: int| 0 <= j < ov.len() && ov[j] == s;
                        if j < p { assert(nv[j] == s); } else { assert(nv[j + 1] == s); }
                    }
                    if s == xs {
                        assert(nv[p as int] == s);
                    }
                }
            }
            assert(orig.take(i + 1).to_set() =~= orig.take(i as int).to_set().insert(xs)) by {
                assert forall|s: Seq<char>| orig.take(i + 1).to_set().contains(s) <==> orig.take(i as int).to_set().insert(xs).contains(s) by {
                    if orig.take(i + 1).contains(s) {
                        let j = choose|j: int| 0 <= j < i + 1 && #[trigger] orig.take(i + 1)[j] == s;
                        if j < i { assert(orig.take(i as int)[j] == s); }
                    }
                    if orig.take(i as int).contains(s) {
                        let j = choose|j: int| 0 <= j < i && #[trigger] orig.take(i as int)[j] == s;
                        assert(orig.take(i + 1)[j] == s);
                    }
                    if s == xs {
                        assert(orig.take(i + 1)[i as int] == s);
                    }
                }
            }
        }
        i += 1;
    }
    assert(orig.take(n as int) =~= orig);
    out
}

} // verus!
