//! Recent commits, scanned for corrections.
//!
//! Re-selecting a different text for the same raw input is a correction:
//! the newest earlier commit with that input, a different text and a
//! record still in place is the one contradicted, and its record is taken
//! out (to be retracted). Only the last `RECENT_WINDOW` commits that came
//! with an input are kept.

use vstd::prelude::*;
use std::collections::VecDeque;

use crate::text::str_eq;

verus! {

/// How many recent commits are scanned for a same-input contradiction.
pub const RECENT_WINDOW: usize = 16;

/// One remembered commit: its raw input, its text, and what it learned
/// (taken out once retracted).
pub struct RecentCommit<T> {
    pub input: String,
    pub text: String,
    pub record: Option<T>,
}

pub struct RecentView<T> {
    pub input: Seq<char>,
    pub text: Seq<char>,
    pub record: Option<T>,
}

impl<T> View for RecentCommit<T> {
    type V = RecentView<T>;

    open spec fn view(&self) -> RecentView<T> {
        RecentView { input: self.input@, text: self.text@, record: self.record }
    }
}

/// Whether commit `r` is contradicted by committing `text` for `input`.
pub open spec fn contradicts<T>(r: RecentView<T>, input: Seq<char>, text: Seq<char>) -> bool {
    r.record is Some && r.input == input && r.text != text
}

/// The newest of the first `n` commits that the new one contradicts.
pub open spec fn last_contradicted<T>(v: Seq<RecentView<T>>, n: int, input: Seq<char>, text: Seq<char>) -> Option<int>
    decreases n,
{
    if n <= 0 {
        None
    } else if contradicts(v[n - 1], input, text) {
        Some(n - 1)
    } else {
        last_contradicted(v, n - 1, input, text)
    }
}

/// The window after remembering `c`: appended, the oldest dropped past
/// the window size.
pub open spec fn remember_spec<T>(v: Seq<RecentView<T>>, c: RecentView<T>) -> Seq<RecentView<T>> {
    if v.len() + 1 > RECENT_WINDOW {
        v.push(c).drop_first()
    } else {
        v.push(c)
    }
}

pub proof fn lemma_last_contradicted<T>(v: Seq<RecentView<T>>, n: int, input: Seq<char>, text: Seq<char>)
    requires
        n <= v.len(),
    ensures
        last_contradicted(v, n, input, text) matches Some(i) ==> 0 <= i < n && contradicts(v[i], input, text),
    decreases n,
{
    if n > 0 && !contradicts(v[n - 1], input, text) {
        lemma_last_contradicted(v, n - 1, input, text);
    }
}

/// A correction needs the very same raw input: the commit found
/// contradicted still has its record, was made for exactly `input` with a
/// text other than `text`, and is the newest such; if none of the first
/// `n` commits is one, none is found.
pub proof fn law_contradicted_same_input<T>(v: Seq<RecentView<T>>, n: int, input: Seq<char>, text: Seq<char>)
    requires
        n <= v.len(),
    ensures
        last_contradicted(v, n, input, text) matches Some(i) ==> {
            &&& 0 <= i < n
            &&& v[i].record is Some
            &&& v[i].input == input
            &&& v[i].text != text
            &&& forall|j: int| i < j < n ==> !((#[trigger] v[j]).record is Some && v[j].input == input && v[j].text != text)
        },
        last_contradicted(v, n, input, text) is None ==> forall|j: int| 0 <= j < n
            ==> !((#[trigger] v[j]).record is Some && v[j].input == input && v[j].text != text),
    decreases n,
{
    if n > 0 && !contradicts(v[n - 1], input, text) {
        law_contradicted_same_input(v, n - 1, input, text);
    }
}

/// A retracted commit is retracted once: after its record is taken out,
/// no later commit finds it contradicted again.
pub proof fn law_retract_once<T>(v: Seq<RecentView<T>>, input: Seq<char>, text: Seq<char>, input2: Seq<char>, text2: Seq<char>)
    requires
        last_contradicted(v, v.len() as int, input, text) is Some,
    ensures
        ({
            let i = last_contradicted(v, v.len() as int, input, text).unwrap();
            let w = v.update(i, RecentView { input: v[i].input, text: v[i].text, record: None });
            last_contradicted(w, w.len() as int, input2, text2) != Some(i)
        }),
{
    let i = last_contradicted(v, v.len() as int, input, text).unwrap();
    lemma_last_contradicted(v, v.len() as int, input, text);
    let w = v.update(i, RecentView { input: v[i].input, text: v[i].text, record: None });
    lemma_last_contradicted(w, w.len() as int, input2, text2);
}

/// The window never grows past `RECENT_WINDOW` commits, and the commit
/// just remembered is its newest.
pub proof fn law_window_bounded<T>(v: Seq<RecentView<T>>, c: RecentView<T>)
    requires
        v.len() <= RECENT_WINDOW,
    ensures
        remember_spec(v, c).len() <= RECENT_WINDOW,
        remember_spec(v, c).last() == c,
{
}

pub struct RecentWindow<T> {
    entries: VecDeque<RecentCommit<T>>,
}

impl<T> View for RecentWindow<T> {
    type V = Seq<RecentView<T>>;

    closed spec fn view(&self) -> Seq<RecentView<T>> {
        self.entries@.map_values(|c: RecentCommit<T>| c@)
    }
}

impl<T> RecentWindow<T> {
    pub fn new() -> (r: Self)
        ensures
            r@ == Seq::<RecentView<T>>::empty(),
    {
        let r = RecentWindow { entries: VecDeque::new() };
        assert(r@ =~= Seq::<RecentView<T>>::empty());
        r
    }

    pub fn len(&self) -> (n: usize)
        ensures
            n == self@.len(),
    {
        self.entries.len()
    }

    /// Find the newest commit contradicted by committing `text` for
    /// `input`, and take its record out.
    pub fn take_contradicted(&mut self, input: &str, text: &str) -> (r: Option<T>)
        ensures
            match last_contradicted(old(self)@, old(self)@.len() as int, input@, text@) {
                Some(i) => {
                    &&& r == old(self)@[i].record
                    &&& r is Some
                    &&& final(self)@ == old(self)@.update(
                        i,
                        RecentView { input: old(self)@[i].input, text: old(self)@[i].text, record: None },
                    )
                },
                None => r is None && final(self)@ == old(self)@,
            },
    {
        let ghost v = self@;
        let mut n = self.entries.len();
        while n > 0
            invariant
                v == self@,
                v == old(self)@,
                n <= v.len(),
                last_contradicted(v, v.len() as int, input@, text@) == last_contradicted(v, n as int, input@, text@),
            decreases n,
        {
            let found = {
                let e = &self.entries[n - 1];
                proof {
                    assert(v[n - 1] == e@);
                }
                e.record.is_some() && str_eq(e.input.as_str(), input) && !str_eq(e.text.as_str(), text)
            };
            if found {
                let idx = n - 1;
                match self.entries.remove(idx) {
                    Some(mut e) => {
                        let rec = e.record.take();
                        self.entries.insert(idx, e);
                        proof {
                            assert(self@ =~= v.update(
                                idx as int,
                                RecentView { input: v[idx as int].input, text: v[idx as int].text, record: None },
                            ));
                        }
                        return rec;
                    },
                    None => {
                        return None;
                    },
                }
            }
            n -= 1;
        }
        None
    }

    /// Remember a commit that came with an input.
    pub fn remember(&mut self, input: String, text: String, record: Option<T>)
        ensures
            final(self)@ == remember_spec(old(self)@, RecentView { input: input@, text: text@, record: record }),
    {
        let ghost v = self@;
        let ghost c = RecentView { input: input@, text: text@, record: record };
        self.entries.push_back(RecentCommit { input: input, text: text, record: record });
        assert(self@ =~= v.push(c));
        if self.entries.len() > RECENT_WINDOW {
            let _ = self.entries.pop_front();
            assert(self@ =~= v.push(c).drop_first());
        }
    }
}

} // verus!
