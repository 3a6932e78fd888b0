//! Small verified string utilities over the `Seq<char>` view of `str`.

use vstd::prelude::*;

verus! {

broadcast use vstd::string::group_string_axioms;

/// Index of the first `c` in `s`, or -1 when there is none.
pub open spec fn first_index(s: Seq<char>, c: char) -> int
    decreases s.len(),
{
    if s.len() == 0 {
        -1
    } else if s[0] == c {
        0
    } else {
        let r = first_index(s.drop_first(), c);
        if r < 0 {
            -1
        } else {
            r + 1
        }
    }
}

pub proof fn lemma_first_index(s: Seq<char>, c: char)
    ensures
        -1 <= first_index(s, c) < s.len(),
        first_index(s, c) >= 0 ==> s[first_index(s, c)] == c,
        forall|j: int| 0 <= j < s.len() && (first_index(s, c) < 0 || j < first_index(s, c))
            ==> s[j] != c,
    decreases s.len(),
{
    if s.len() > 0 && s[0] != c {
        lemma_first_index(s.drop_first(), c);
        assert forall|j: int| 0 <= j < s.len() && (first_index(s, c) < 0 || j < first_index(s, c))
            implies s[j] != c by {
            if j > 0 {
                assert(s[j] == s.drop_first()[j - 1]);
            }
        }
    }
}

/// `a + [c] + b` where `a` holds no `c`: the first `c` is right after `a`.
pub proof fn lemma_first_index_after(a: Seq<char>, b: Seq<char>, c: char)
    requires
        !a.contains(c),
    ensures
        first_index(a.push(c) + b, c) == a.len(),
    decreases a.len(),
{
    let s = a.push(c) + b;
    if a.len() > 0 {
        assert(s.drop_first() =~= a.drop_first().push(c) + b);
        assert(a[0] != c) by {
            assert(a.contains(a[0]));
        }
        assert(!a.drop_first().contains(c)) by {
            if a.drop_first().contains(c) {
                let k = choose|k: int| 0 <= k < a.drop_first().len() && a.drop_first()[k] == c;
                assert(a[k + 1] == c);
            }
        }
        lemma_first_index_after(a.drop_first(), b, c);
    } else {
        assert(s[0] == c);
    }
}

/// A sequence without `c`: no index.
pub proof fn lemma_first_index_none(a: Seq<char>, c: char)
    requires
        !a.contains(c),
    ensures
        first_index(a, c) == -1,
{
    lemma_first_index(a, c);
    if first_index(a, c) >= 0 {
        assert(a.contains(a[first_index(a, c)]));
    }
}

/// `s` split at every `c` (std `str::split` with a char pattern).
pub open spec fn split_spec(s: Seq<char>, c: char) -> Seq<Seq<char>>
    decreases s.len(),
{
    let i = first_index(s, c);
    if i < 0 {
        seq![s]
    } else {
        proof {
            lemma_first_index(s, c);
        }
        seq![s.take(i)] + split_spec(s.skip(i + 1), c)
    }
}

/// `x` without one trailing carriage return.
pub open spec fn strip_cr(x: Seq<char>) -> Seq<char> {
    if x.len() > 0 && x.last() == '\r' {
        x.drop_last()
    } else {
        x
    }
}

/// std `str::lines`: split at `\n`, a `\r` right before a `\n` belongs to
/// the line ending, and a final empty line (after a trailing `\n`, or of an
/// empty text) is not a line.
pub open spec fn lines_spec(s: Seq<char>) -> Seq<Seq<char>> {
    let p = split_spec(s, '\n');
    let q = Seq::new(p.len(), |i: int| if i < p.len() - 1 { strip_cr(p[i]) } else { p[i] });
    if q.last().len() == 0 {
        q.drop_last()
    } else {
        q
    }
}

pub proof fn lemma_split_len(s: Seq<char>, c: char)
    ensures
        split_spec(s, c).len() >= 1,
    decreases s.len(),
{
    let i = first_index(s, c);
    if i >= 0 {
        lemma_first_index(s, c);
        lemma_split_len(s.skip(i + 1), c);
    }
}

/// `String::push`: appends one char.
#[verifier::external_body]
pub(crate) fn push_char(s: &mut String, c: char)
    ensures
        final(s)@ == old(s)@.push(c),
{
    s.push(c);
}

/// The characters of `s`, in order.
pub fn to_chars(s: &str) -> (v: Vec<char>)
    ensures
        v@ == s@,
{
    let mut v: Vec<char> = Vec::new();
    for c in it: s.chars()
        invariant
            it.seq() == s@,
            v@ == it.seq().take(it.index() as int),
    {
        v.push(c);
    }
    v
}

/// A string made of `chars[from..to]`.
pub fn string_of(chars: &[char], from: usize, to: usize) -> (s: String)
    requires
        from <= to <= chars@.len(),
    ensures
        s@ == chars@.subrange(from as int, to as int),
{
    let mut s = String::new();
    let mut i = from;
    while i < to
        invariant
            from <= i <= to <= chars@.len(),
            s@ == chars@.subrange(from as int, i as int),
        decreases to - i,
    {
        push_char(&mut s, chars[i]);
        assert(chars@.subrange(from as int, i + 1) =~= chars@.subrange(from as int, i as int).push(chars@[i as int]));
        i += 1;
    }
    s
}

/// `s` split at every `c`.
pub fn split_char(s: &str, c: char) -> (parts: Vec<String>)
    ensures
        parts@.len() == split_spec(s@, c).len(),
        forall|i: int| 0 <= i < parts@.len() ==> #[trigger] parts@[i]@ == split_spec(s@, c)[i],
{
    let chars = to_chars(s);
    let mut parts: Vec<String> = Vec::new();
    let mut start: usize = 0;
    let mut i: usize = 0;
    assert(chars@.subrange(0, chars@.len() as int) =~= chars@);
    assert(parts@.map_values(|p: String| p@) =~= Seq::<Seq<char>>::empty());
    while i < chars.len()
        invariant
            chars@ == s@,
            start <= i <= chars@.len(),
            !chars@.subrange(start as int, i as int).contains(c),
            split_spec(s@, c) =~= parts@.map_values(|p: String| p@) + split_spec(
                chars@.subrange(start as int, chars@.len() as int), c),
        decreases chars@.len() - i,
    {
        let ghost cur = chars@.subrange(start as int, i as int);
        if chars[i] == c {
            let piece = string_of(&chars, start, i);
            proof {
                let rest = chars@.subrange(i + 1, chars@.len() as int);
                assert(chars@.subrange(start as int, chars@.len() as int) =~= cur.push(c) + rest);
                lemma_first_index_after(cur, rest, c);
                assert((cur.push(c) + rest).take(cur.len() as int) =~= cur);
                assert((cur.push(c) + rest).skip(cur.len() as int + 1) =~= rest);
                assert(parts@.push(piece).map_values(|p: String| p@) =~= parts@.map_values(
                    |p: String| p@).push(cur));
            }
            parts.push(piece);
            start = i + 1;
        } else {
            proof {
                assert(chars@.subrange(start as int, i + 1) =~= cur.push(chars@[i as int]));
                if chars@.subrange(start as int, i + 1).contains(c) {
                    let k = choose|k: int| 0 <= k < cur.len() + 1 && #[trigger] chars@.subrange(start as int, i + 1)[k] == c;
                    if k < cur.len() {
                        assert(cur[k] == c);
                    }
                }
            }
        }
        i += 1;
    }
    let last = string_of(&chars, start, chars.len());
    proof {
        let cur = chars@.subrange(start as int, chars@.len() as int);
        lemma_first_index_none(cur, c);
        assert(split_spec(cur, c) =~= seq![cur]);
        assert(parts@.push(last).map_values(|p: String| p@) =~= parts@.map_values(|p: String| p@).push(cur));
    }
    parts.push(last);
    proof {
        assert forall|i: int| 0 <= i < parts@.len() implies #[trigger] parts@[i]@ == split_spec(s@, c)[i] by {
            assert(parts@.map_values(|p: String| p@)[i] == parts@[i]@);
        }
    }
    parts
}

/// `x` without one trailing `\r`.
pub fn strip_cr_string(x: &String) -> (r: String)
    ensures
        r@ == strip_cr(x@),
{
    let chars = to_chars(x.as_str());
    if chars.len() > 0 && chars[chars.len() - 1] == '\r' {
        let r = string_of(&chars, 0, chars.len() - 1);
        assert(chars@.subrange(0, chars@.len() - 1) =~= chars@.drop_last());
        r
    } else {
        x.clone()
    }
}

/// The lines of `s` (std `str::lines`).
pub fn lines_of(s: &str) -> (ls: Vec<String>)
    ensures
        ls@.len() == lines_spec(s@).len(),
        forall|i: int| 0 <= i < ls@.len() ==> #[trigger] ls@[i]@ == lines_spec(s@)[i],
{
    let parts = split_char(s, '\n');
    proof {
        lemma_split_len(s@, '\n');
    }
    let ghost p = split_spec(s@, '\n');
    let ghost q = Seq::new(p.len(), |i: int| if i < p.len() - 1 { strip_cr(p[i]) } else { p[i] });
    let n = parts.len();
    let mut out: Vec<String> = Vec::new();
    let mut i: usize = 0;
    while i + 1 < n
        invariant
            1 <= n == parts@.len() == p.len() == q.len(),
            i + 1 <= n,
            forall|k: int| 0 <= k < parts@.len() ==> #[trigger] parts@[k]@ == p[k],
            q == Seq::new(p.len(), |i: int| if i < p.len() - 1 { strip_cr(p[i]) } else { p[i] }),
            out@.len() == i,
            forall|k: int| 0 <= k < i ==> #[trigger] out@[k]@ == q[k],
        decreases n - i,
    {
        let line = strip_cr_string(&parts[i]);
        out.push(line);
        i += 1;
    }
    let last = parts[n - 1].clone();
    if !last.as_str().is_empty() {
        out.push(last);
    }
    proof {
        assert(q.last() == p[n - 1]);
        if q.last().len() == 0 {
            assert(lines_spec(s@) == q.drop_last());
        } else {
            assert(lines_spec(s@) == q);
        }
    }
    out
}

/// A data line of the TSV exchange formats: not empty, not a `#` comment.
pub open spec fn is_data_line_spec(l: Seq<char>) -> bool {
    l.len() > 0 && l[0] != '#'
}

pub fn is_data_line(l: &String) -> (r: bool)
    ensures
        r == is_data_line_spec(l@),
{
    let chars = to_chars(l.as_str());
    chars.len() > 0 && chars[0] != '#'
}


/// ASCII lowercase of one char (std `char::to_ascii_lowercase`).
pub open spec fn lower_spec(c: char) -> char {
    if 'A' <= c && c <= 'Z' {
        ((c as u32) + 32) as char
    } else {
        c
    }
}

/// ASCII lowercase of a string (std `str::to_ascii_lowercase`).
pub open spec fn lower_seq(s: Seq<char>) -> Seq<char> {
    s.map_values(|c: char| lower_spec(c))
}

pub fn lower_char(c: char) -> (r: char)
    ensures
        r == lower_spec(c),
{
    if 'A' <= c && c <= 'Z' {
        let b = (c as u32 + 32) as u8;
        let r = b as char;
        assert(r == ((c as u32) + 32) as char);
        r
    } else {
        c
    }
}

/// The ASCII lowercase form of `s`.
pub fn ascii_lowercase(s: &str) -> (r: String)
    ensures
        r@ == lower_seq(s@),
{
    let chars = to_chars(s);
    let mut r = String::new();
    let mut i: usize = 0;
    while i < chars.len()
        invariant
            chars@ == s@,
            i <= chars@.len(),
            r@ == lower_seq(chars@.take(i as int)),
        decreases chars@.len() - i,
    {
        push_char(&mut r, lower_char(chars[i]));
        assert(lower_seq(chars@.take(i + 1)) =~= lower_seq(chars@.take(i as int)).push(lower_spec(chars@[i as int])));
        i += 1;
    }
    assert(chars@.take(i as int) =~= chars@);
    r
}


/// Whether two strings have the same characters.
pub fn str_eq(a: &str, b: &str) -> (r: bool)
    ensures
        r == (a@ == b@),
{
    let x = to_chars(a);
    let y = to_chars(b);
    if x.len() != y.len() {
        return false;
    }
    let mut i: usize = 0;
    while i < x.len()
        invariant
            x@ == a@,
            y@ == b@,
            x@.len() == y@.len(),
            i <= x@.len(),
            forall|k: int| 0 <= k < i ==> x@[k] == y@[k],
        decreases x@.len() - i,
    {
        if x[i] != y[i] {
            return false;
        }
        i += 1;
    }
    assert(x@ =~= y@);
    true
}

} // verus!
