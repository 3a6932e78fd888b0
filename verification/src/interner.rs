//! Token interning: every LM/dictionary token becomes a `u32` id so the
//! n-gram tables key on packed integers instead of strings.
//!
//! Model: the sequence of interned strings; a token's id is its position.

use vstd::prelude::*;
use vstd::utf8::encode_utf8;

use crate::tables::StrIdMap;

verus! {

/// Sentinel id for tokens never seen at load time (query-time fallback
/// letters outside a-z, digits, ...). The LM treats it as OOV.
pub const UNK: u32 = 0xffff_ffffu32;

/// Position of `s` in `v` (meaningful when `v` contains it).
pub open spec fn id_of(v: Seq<Seq<char>>, s: Seq<char>) -> int {
    choose|i: int| 0 <= i < v.len() && v[i] == s
}

/// What interning `s` into the table `v` gives: the table afterwards and
/// the id handed out (an existing token keeps its id, a new one is
/// appended).
pub open spec fn intern_spec(v: Seq<Seq<char>>, s: Seq<char>) -> (Seq<Seq<char>>, int) {
    if v.contains(s) {
        (v, id_of(v, s))
    } else {
        (v.push(s), v.len() as int)
    }
}

/// No string occurs twice.
pub open spec fn distinct(v: Seq<Seq<char>>) -> bool {
    forall|i: int, j: int| 0 <= i < v.len() && 0 <= j < v.len() && i != j ==> v[i] != v[j]
}

/// UTF-8 byte length of a string.
pub open spec fn utf8_len(s: Seq<char>) -> nat {
    encode_utf8(s).len()
}

/// Total UTF-8 bytes of all strings.
pub open spec fn total_bytes(v: Seq<Seq<char>>) -> nat
    decreases v.len(),
{
    if v.len() == 0 {
        0
    } else {
        total_bytes(v.drop_last()) + utf8_len(v.last())
    }
}

pub struct Interner {
    map: StrIdMap,
    strings: Vec<String>,
}

impl View for Interner {
    type V = Seq<Seq<char>>;

    closed spec fn view(&self) -> Seq<Seq<char>> {
        self.strings@.map_values(|s: String| s@)
    }
}

impl Interner {
    /// Well-formed: the hash index agrees with the string table, which holds
    /// no duplicates and whose ids fit in `u32`.
    pub closed spec fn wf(&self) -> bool {
        &&& self.strings@.len() <= 0xffff_ffffu32
        &&& distinct(self@)
        &&& forall|k: Seq<char>| #[trigger] self.map@.contains_key(k) <==> self@.contains(k)
        &&& forall|k: Seq<char>|
            #[trigger] self.map@.contains_key(k) ==> self.map@[k] < self@.len() && self@[self.map@[k] as int] == k
    }

    pub fn new() -> (r: Self)
        ensures
            r.wf(),
            r@ == Seq::<Seq<char>>::empty(),
    {
        let r = Interner { map: StrIdMap::new(), strings: Vec::new() };
        assert(r@ =~= Seq::<Seq<char>>::empty());
        r
    }

    pub fn intern(&mut self, s: &str) -> (id: u32)
        requires
            old(self).wf(),
            old(self)@.len() < 0xffff_ffffu32,
        ensures
            final(self).wf(),
            (final(self)@, id as int) == intern_spec(old(self)@, s@),
    {
        if let Some(id) = self.map.get(s) {
            proof {
                assert(self@.contains(s@));
                assert(self@[id as int] == s@);
                assert(id_of(self@, s@) == id as int) by {
                    let j = id_of(self@, s@);
                    assert(self@.contains(s@));
                }
            }
            return id;
        }
        let id = self.strings.len() as u32;
        let boxed = s.to_owned();
        let ghost before = self@;
        self.strings.push(boxed.clone());
        self.map.insert(boxed, id);
        proof {
            assert(self@ =~= before.push(s@));
            assert(!before.contains(s@));
            assert forall|k: Seq<char>| #[trigger] self.map@.contains_key(k) <==> self@.contains(k) by {
                if self@.contains(k) && k != s@ {
                    let j = choose|j: int| 0 <= j < self@.len() && self@[j] == k;
                    assert(before[j] == k);
                    assert(before.contains(k));
                }
                if k != s@ && self.map@.contains_key(k) {
                    assert(before.contains(k));
                    let j = choose|j: int| 0 <= j < before.len() && before[j] == k;
                    assert(self@[j] == k);
                }
                if k == s@ {
                    assert(self@[before.len() as int] == k);
                }
            }
            assert forall|i: int, j: int| 0 <= i < self@.len() && 0 <= j < self@.len() && i != j
                implies self@[i] != self@[j] by {
                if i < before.len() && j == before.len() {
                    assert(before.contains(before[i]));
                }
                if j < before.len() && i == before.len() {
                    assert(before.contains(before[j]));
                }
            }
        }
        id
    }

    /// Id of an already interned token.
    pub fn get(&self, s: &str) -> (r: Option<u32>)
        requires
            self.wf(),
        ensures
            r == (if self@.contains(s@) { Some(id_of(self@, s@) as u32) } else { None::<u32> }),
            r matches Some(id) ==> id < self@.len() && self@[id as int] == s@,
    {
        let r = self.map.get(s);
        proof {
            if self@.contains(s@) {
                let j = id_of(self@, s@);
                assert(self@[self.map@[s@] as int] == s@);
            }
        }
        r
    }

    /// A well-formed table holds no string twice.
    pub proof fn lemma_distinct(&self)
        requires
            self.wf(),
        ensures
            distinct(self@),
            self@.len() <= 0xffff_ffffu32,
    {
    }

    /// The token behind an id.
    pub fn resolve(&self, id: u32) -> (r: &str)
        requires
            id < self@.len(),
        ensures
            r@ == self@[id as int],
    {
        self.strings[id as usize].as_str()
    }

    pub fn len(&self) -> (r: usize)
        ensures
            r == self@.len(),
    {
        self.strings.len()
    }

    /// Rough heap usage in bytes: each token stored twice (map key + table)
    /// plus about 48 bytes of map/table overhead per token, saturating at
    /// `usize::MAX`.
    pub fn est_bytes(&self) -> (r: usize)
        ensures
            r == crate::lattice::sat((2 * total_bytes(self@) + 48 * self@.len()) as int),
    {
        let mut chars: usize = 0;
        let mut i: usize = 0;
        while i < self.strings.len()
            invariant
                i <= self@.len() == self.strings@.len(),
                chars == crate::lattice::sat(total_bytes(self@.take(i as int)) as int),
            decreases self.strings@.len() - i,
        {
            proof {
                assert(self@.take(i + 1).drop_last() =~= self@.take(i as int));
                assert(self@.take(i + 1).last() == self.strings@[i as int]@);
            }
            chars = crate::lattice::sat_add(chars, crate::lattice::byte_count(self.strings[i].as_str()));
            i += 1;
        }
        assert(self@.take(i as int) =~= self@);
        let n = self.strings.len();
        let doubled = crate::lattice::sat_add(chars, chars);
        let overhead = if n <= usize::MAX / 48 { n * 48 } else { usize::MAX };
        let r = crate::lattice::sat_add(doubled, overhead);
        proof {
            let t = total_bytes(self@) as int;
            let o = 48 * n as int;
            if t > usize::MAX || o > usize::MAX {
                assert(r == usize::MAX);
            } else {
                assert(chars == t);
            }
        }
        r
    }
}

/// Interning is idempotent: interning the same string again changes
/// nothing and hands out the same id.
pub proof fn law_intern_idempotent(v: Seq<Seq<char>>, s: Seq<char>)
    requires
        distinct(v),
    ensures
        intern_spec(intern_spec(v, s).0, s) == intern_spec(v, s),
{
    let (w, id) = intern_spec(v, s);
    assert(w[id] == s);
    assert(w.contains(s));
    let j = id_of(w, s);
    assert(distinct(w)) by {
        if !v.contains(s) {
            assert forall|a: int, b: int| 0 <= a < w.len() && 0 <= b < w.len() && a != b implies w[a] != w[b] by {
                if a < v.len() && b == v.len() {
                    assert(v.contains(v[a]));
                }
                if b < v.len() && a == v.len() {
                    assert(v.contains(v[b]));
                }
            }
        }
    }
}

/// Resolving an interned id gives back the string that was interned, and
/// earlier ids keep resolving to what they did.
pub proof fn law_resolve_intern(v: Seq<Seq<char>>, s: Seq<char>)
    ensures
        0 <= intern_spec(v, s).1 < intern_spec(v, s).0.len(),
        intern_spec(v, s).0[intern_spec(v, s).1] == s,
        forall|i: int| 0 <= i < v.len() ==> #[trigger] intern_spec(v, s).0[i] == v[i],
{
    if v.contains(s) {
        let j = id_of(v, s);
    }
}

/// Interning, in full: a string already in the table keeps its id and the
/// table is unchanged; a new string gets the next id, the table's length,
/// and is appended. Either way the table stays free of duplicates, ids
/// are dense positions, the id resolves back to the string, and every
/// earlier id still resolves to its string.
pub proof fn law_intern(v: Seq<Seq<char>>, s: Seq<char>)
    requires
        distinct(v),
    ensures
        ({
            let (w, id) = intern_spec(v, s);
            &&& v.contains(s) ==> w == v && id == id_of(v, s)
            &&& !v.contains(s) ==> w == v.push(s) && id == v.len()
            &&& distinct(w)
            &&& 0 <= id < w.len()
            &&& w[id] == s
            &&& id_of(w, s) == id
            &&& forall|i: int| 0 <= i < v.len() ==> #[trigger] w[i] == v[i]
        }),
{
    lemma_intern_distinct(v, s);
    lemma_intern_id(v, s);
    law_resolve_intern(v, s);
}

/// Interning keeps a table free of duplicates.
pub proof fn lemma_intern_distinct(v: Seq<Seq<char>>, s: Seq<char>)
    requires
        distinct(v),
    ensures
        distinct(intern_spec(v, s).0),
{
    let w = intern_spec(v, s).0;
    if !v.contains(s) {
        assert forall|a: int, b: int| 0 <= a < w.len() && 0 <= b < w.len() && a != b implies w[a] != w[b] by {
            if a < v.len() && b == v.len() {
                assert(v.contains(v[a]));
            }
            if b < v.len() && a == v.len() {
                assert(v.contains(v[b]));
            }
        }
    }
}

/// The id interning hands out is the position of the string afterwards.
pub proof fn lemma_intern_id(v: Seq<Seq<char>>, s: Seq<char>)
    requires
        distinct(v),
    ensures
        intern_spec(v, s).0.contains(s),
        id_of(intern_spec(v, s).0, s) == intern_spec(v, s).1,
{
    let (w, id) = intern_spec(v, s);
    law_resolve_intern(v, s);
    assert(w[id] == s);
    let k = id_of(w, s);
    if !v.contains(s) && k != id {
        assert(w[k] == s);
        assert(v[k] == s);
        assert(v.contains(s));
    }
}

/// Interning keeps every id already handed out, and the table stays
/// free of duplicates.
pub proof fn lemma_intern_keeps_ids(v: Seq<Seq<char>>, s: Seq<char>, t: Seq<char>)
    requires
        distinct(v),
        v.contains(t),
    ensures
        distinct(intern_spec(v, s).0),
        intern_spec(v, s).0.contains(t),
        id_of(intern_spec(v, s).0, t) == id_of(v, t),
{
    let w = intern_spec(v, s).0;
    let j = id_of(v, t);
    if !v.contains(s) {
        assert forall|a: int, b: int| 0 <= a < w.len() && 0 <= b < w.len() && a != b implies w[a] != w[b] by {
            if a < v.len() && b == v.len() {
                assert(v.contains(v[a]));
            }
            if b < v.len() && a == v.len() {
                assert(v.contains(v[b]));
            }
        }
    }
    assert(w[j] == t);
    assert(w.contains(t));
    let k = id_of(w, t);
    assert(w[k] == t);
}

} // verus!
