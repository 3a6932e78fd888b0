//! String-keyed hash tables backed by `rustc_hash`'s Fx maps and sets.
//!
//! The Fx collections are std `HashMap`/`HashSet` with the Fx hasher; their
//! contents are named below and every method the library calls has a
//! wrapper stating what it does to those contents.

use vstd::prelude::*;
use rustc_hash::{FxBuildHasher, FxHashMap, FxHashSet};

verus! {

/// `rustc_hash::FxBuildHasher`, the hasher of the Fx maps and sets; opaque.
#[verifier::external_type_specification]
#[verifier::external_body]
pub struct ExFxBuildHasher(FxBuildHasher);

/// What a string-to-id Fx map holds, keyed by the key's characters.
pub uninterp spec fn str_id_contents(m: FxHashMap<String, u32>) -> Map<Seq<char>, u32>;

/// What a string Fx set holds.
pub uninterp spec fn str_set_contents(s: FxHashSet<String>) -> Set<Seq<char>>;

/// `FxHashMap::default` (std `HashMap::default` with the Fx hasher): an
/// empty map.
#[verifier::external_body]
fn fx_map_default() -> (m: FxHashMap<String, u32>)
    ensures
        str_id_contents(m).dom() == Set::<Seq<char>>::empty(),
{
    FxHashMap::default()
}

/// `HashMap::get` looked up by `&str`: the value stored under the key with
/// the same characters, if any.
#[verifier::external_body]
fn fx_map_get(m: &FxHashMap<String, u32>, k: &str) -> (r: Option<u32>)
    ensures
        str_id_contents(*m).contains_key(k@) ==> r == Some(str_id_contents(*m)[k@]),
        !str_id_contents(*m).contains_key(k@) ==> r is None,
{
    m.get(k).copied()
}

/// `HashMap::insert`: afterwards the key maps to the value, all other keys
/// are unchanged. (The displaced value that `insert` returns is dropped.)
#[verifier::external_body]
fn fx_map_insert(m: &mut FxHashMap<String, u32>, k: String, v: u32)
    ensures
        str_id_contents(*final(m)) == str_id_contents(*old(m)).insert(k@, v),
{
    m.insert(k, v);
}

/// `FxHashSet::default`: an empty set.
#[verifier::external_body]
fn fx_set_default() -> (s: FxHashSet<String>)
    ensures
        str_set_contents(s) == Set::<Seq<char>>::empty(),
{
    FxHashSet::default()
}

/// `HashSet::contains` looked up by `&str`.
#[verifier::external_body]
fn fx_set_contains(s: &FxHashSet<String>, k: &str) -> (r: bool)
    ensures
        r == str_set_contents(*s).contains(k@),
{
    s.contains(k)
}

/// `HashSet::insert`: afterwards the set also holds the key.
#[verifier::external_body]
fn fx_set_insert(s: &mut FxHashSet<String>, k: String)
    ensures
        str_set_contents(*final(s)) == str_set_contents(*old(s)).insert(k@),
{
    s.insert(k);
}

/// A map from strings to `u32` ids.
pub struct StrIdMap {
    inner: FxHashMap<String, u32>,
}

impl View for StrIdMap {
    type V = Map<Seq<char>, u32>;

    closed spec fn view(&self) -> Map<Seq<char>, u32> {
        str_id_contents(self.inner)
    }
}

impl StrIdMap {
    pub fn new() -> (m: Self)
        ensures
            m@ == Map::<Seq<char>, u32>::empty(),
    {
        let m = StrIdMap { inner: fx_map_default() };
        assert(m@ =~= Map::<Seq<char>, u32>::empty());
        m
    }

    pub fn get(&self, k: &str) -> (r: Option<u32>)
        ensures
            r == (if self@.contains_key(k@) { Some(self@[k@]) } else { None::<u32> }),
    {
        fx_map_get(&self.inner, k)
    }

    pub fn insert(&mut self, k: String, v: u32)
        ensures
            final(self)@ == old(self)@.insert(k@, v),
    {
        fx_map_insert(&mut self.inner, k, v)
    }
}

/// A set of strings.
pub struct StrSet {
    inner: FxHashSet<String>,
}

impl View for StrSet {
    type V = Set<Seq<char>>;

    closed spec fn view(&self) -> Set<Seq<char>> {
        str_set_contents(self.inner)
    }
}

impl StrSet {
    pub fn new() -> (s: Self)
        ensures
            s@ == Set::<Seq<char>>::empty(),
    {
        StrSet { inner: fx_set_default() }
    }

    pub fn contains(&self, k: &str) -> (r: bool)
        ensures
            r == self@.contains(k@),
    {
        fx_set_contains(&self.inner, k)
    }

    pub fn insert(&mut self, k: String)
        ensures
            final(self)@ == old(self)@.insert(k@),
    {
        fx_set_insert(&mut self.inner, k)
    }
}


/// What a char-to-id Fx map holds.
pub uninterp spec fn char_id_contents(m: FxHashMap<char, u32>) -> Map<char, u32>;

/// What a `u32` Fx set holds.
pub uninterp spec fn u32_set_contents(s: FxHashSet<u32>) -> Set<u32>;

/// `FxHashMap::default` for char keys: an empty map.
#[verifier::external_body]
fn fx_char_map_default() -> (m: FxHashMap<char, u32>)
    ensures
        char_id_contents(m).dom() == Set::<char>::empty(),
{
    FxHashMap::default()
}

/// `HashMap::get` for char keys.
#[verifier::external_body]
fn fx_char_map_get(m: &FxHashMap<char, u32>, k: char) -> (r: Option<u32>)
    ensures
        char_id_contents(*m).contains_key(k) ==> r == Some(char_id_contents(*m)[k]),
        !char_id_contents(*m).contains_key(k) ==> r is None,
{
    m.get(&k).copied()
}

/// `HashMap::insert` for char keys.
#[verifier::external_body]
fn fx_char_map_insert(m: &mut FxHashMap<char, u32>, k: char, v: u32)
    ensures
        char_id_contents(*final(m)) == char_id_contents(*old(m)).insert(k, v),
{
    m.insert(k, v);
}

/// `FxHashSet::default` for `u32`: an empty set.
#[verifier::external_body]
fn fx_u32_set_default() -> (s: FxHashSet<u32>)
    ensures
        u32_set_contents(s) == Set::<u32>::empty(),
{
    FxHashSet::default()
}

/// `HashSet::contains` for `u32`.
#[verifier::external_body]
fn fx_u32_set_contains(s: &FxHashSet<u32>, k: u32) -> (r: bool)
    ensures
        r == u32_set_contents(*s).contains(k),
{
    s.contains(&k)
}

/// `HashSet::insert` for `u32`.
#[verifier::external_body]
fn fx_u32_set_insert(s: &mut FxHashSet<u32>, k: u32)
    ensures
        u32_set_contents(*final(s)) == u32_set_contents(*old(s)).insert(k),
{
    s.insert(k);
}

/// `HashSet::len` for `u32`: how many ids the set holds.
#[verifier::external_body]
fn fx_u32_set_len(s: &FxHashSet<u32>) -> (r: usize)
    ensures
        r as int == u32_set_contents(*s).len(),
{
    s.len()
}

/// A map from chars to `u32` ids.
pub struct CharIdMap {
    inner: FxHashMap<char, u32>,
}

impl View for CharIdMap {
    type V = Map<char, u32>;

    closed spec fn view(&self) -> Map<char, u32> {
        char_id_contents(self.inner)
    }
}

impl CharIdMap {
    pub fn new() -> (m: Self)
        ensures
            m@ == Map::<char, u32>::empty(),
    {
        let m = CharIdMap { inner: fx_char_map_default() };
        assert(m@ =~= Map::<char, u32>::empty());
        m
    }

    pub fn get(&self, k: char) -> (r: Option<u32>)
        ensures
            r == (if self@.contains_key(k) { Some(self@[k]) } else { None::<u32> }),
    {
        fx_char_map_get(&self.inner, k)
    }

    pub fn insert(&mut self, k: char, v: u32)
        ensures
            final(self)@ == old(self)@.insert(k, v),
    {
        fx_char_map_insert(&mut self.inner, k, v)
    }
}

/// A set of `u32` token ids.
pub struct TokenSet {
    inner: FxHashSet<u32>,
}

impl View for TokenSet {
    type V = Set<u32>;

    closed spec fn view(&self) -> Set<u32> {
        u32_set_contents(self.inner)
    }
}

impl TokenSet {
    pub fn new() -> (s: Self)
        ensures
            s@ == Set::<u32>::empty(),
    {
        TokenSet { inner: fx_u32_set_default() }
    }

    pub fn contains(&self, k: u32) -> (r: bool)
        ensures
            r == self@.contains(k),
    {
        fx_u32_set_contains(&self.inner, k)
    }

    pub fn insert(&mut self, k: u32)
        ensures
            final(self)@ == old(self)@.insert(k),
    {
        fx_u32_set_insert(&mut self.inner, k)
    }

    pub fn len(&self) -> (r: usize)
        ensures
            r as int == self@.len(),
    {
        fx_u32_set_len(&self.inner)
    }
}

/// What a token-to-text Fx map holds.
pub uninterp spec fn tok_text_contents(m: FxHashMap<u32, String>) -> Map<u32, Seq<char>>;

/// `FxHashMap::default` for token keys and string values: an empty map.
#[verifier::external_body]
fn fx_tok_map_default() -> (m: FxHashMap<u32, String>)
    ensures
        tok_text_contents(m).dom() == Set::<u32>::empty(),
{
    FxHashMap::default()
}

/// `HashMap::get` for token keys: the string stored under the key, if any.
#[verifier::external_body]
fn fx_tok_map_get(m: &FxHashMap<u32, String>, k: u32) -> (r: Option<&String>)
    ensures
        r matches Some(v) ==> tok_text_contents(*m).contains_key(k) && v@ == tok_text_contents(*m)[k],
        r is None ==> !tok_text_contents(*m).contains_key(k),
{
    m.get(&k)
}

/// `HashMap::insert` for token keys; the displaced value is dropped.
#[verifier::external_body]
fn fx_tok_map_insert(m: &mut FxHashMap<u32, String>, k: u32, v: String)
    ensures
        tok_text_contents(*final(m)) == tok_text_contents(*old(m)).insert(k, v@),
{
    m.insert(k, v);
}

/// A map from token ids to strings.
pub struct TokTextMap {
    inner: FxHashMap<u32, String>,
}

impl View for TokTextMap {
    type V = Map<u32, Seq<char>>;

    closed spec fn view(&self) -> Map<u32, Seq<char>> {
        tok_text_contents(self.inner)
    }
}

impl TokTextMap {
    pub fn new() -> (m: Self)
        ensures
            m@ == Map::<u32, Seq<char>>::empty(),
    {
        let m = TokTextMap { inner: fx_tok_map_default() };
        assert(m@ =~= Map::<u32, Seq<char>>::empty());
        m
    }

    pub fn get(&self, k: u32) -> (r: Option<&String>)
        ensures
            r matches Some(v) ==> self@.contains_key(k) && v@ == self@[k],
            r is None ==> !self@.contains_key(k),
    {
        fx_tok_map_get(&self.inner, k)
    }

    pub fn insert(&mut self, k: u32, v: String)
        ensures
            final(self)@ == old(self)@.insert(k, v@),
    {
        fx_tok_map_insert(&mut self.inner, k, v)
    }
}

} // verus!
