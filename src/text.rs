//! Characters and tokens: conversion between strings and character
//! vectors, searching, the whitespace tokenizer, and the syslog envelope.

use vstd::prelude::*;
use vstd::string::StrSliceExecFns;

verus! {

broadcast use vstd::string::group_string_axioms;

/// The characters of `s`, in order.
pub fn chars_of(s: &str) -> (r: Vec<char>)
    ensures
        r@ == s@,
{
    let n = s.unicode_len();
    let mut out: Vec<char> = Vec::new();
    let mut i: usize = 0;
    while i < n
        invariant
            n == s@.len(),
            i <= n,
            out@ == s@.subrange(0, i as int),
        decreases n - i,
    {
        out.push(s.get_char(i));
        i = i + 1;
    }
    out
}

/// Relies on `String::push`: appends one character at the end.
#[verifier::external_body]
fn push_char(s: &mut String, c: char)
    ensures
        final(s)@ == old(s)@.push(c),
{
    s.push(c);
}

/// A `String` holding the characters `v`.
pub fn string_of(v: &[char]) -> (r: String)
    ensures
        r@ == v@,
{
    let mut out = String::new();
    let mut i: usize = 0;
    while i < v.len()
        invariant
            i <= v@.len(),
            out@ == v@.subrange(0, i as int),
        decreases v@.len() - i,
    {
        push_char(&mut out, v[i]);
        i = i + 1;
        assert(out@ =~= v@.subrange(0, i as int));
    }
    assert(out@ =~= v@);
    out
}

/// The characters `v[lo..hi]` as a vector of their own.
pub fn slice(v: &[char], lo: usize, hi: usize) -> (r: Vec<char>)
    requires
        lo <= hi <= v@.len(),
    ensures
        r@ == v@.subrange(lo as int, hi as int),
{
    let mut out: Vec<char> = Vec::new();
    let mut i: usize = lo;
    while i < hi
        invariant
            lo <= i <= hi <= v@.len(),
            out@ == v@.subrange(lo as int, i as int),
        decreases hi - i,
    {
        out.push(v[i]);
        i = i + 1;
        assert(out@ =~= v@.subrange(lo as int, i as int));
    }
    out
}

/// `a` followed by `b`.
pub fn concat(a: &[char], b: &[char]) -> (r: Vec<char>)
    ensures
        r@ == a@ + b@,
{
    let mut out = slice(a, 0, a.len());
    let mut i: usize = 0;
    while i < b.len()
        invariant
            i <= b@.len(),
            out@ == a@ + b@.subrange(0, i as int),
        decreases b@.len() - i,
    {
        out.push(b[i]);
        i = i + 1;
        assert(out@ =~= a@ + b@.subrange(0, i as int));
    }
    assert(b@.subrange(0, b@.len() as int) =~= b@);
    out
}

/// Characters with the Unicode `White_Space` property: these separate tokens.
pub open spec fn is_space(c: char) -> bool {
    let u = c as u32;
    (0x9 <= u <= 0xd) || u == 0x20 || u == 0x85 || u == 0xa0 || u == 0x1680 || (0x2000 <= u
        <= 0x200a) || u == 0x2028 || u == 0x2029 || u == 0x202f || u == 0x205f || u == 0x3000
}

/// Whether `c` separates tokens.
pub fn space(c: char) -> (r: bool)
    ensures
        r == is_space(c),
{
    let u = c as u32;
    (0x9 <= u && u <= 0xd) || u == 0x20 || u == 0x85 || u == 0xa0 || u == 0x1680 || (0x2000 <= u
        && u <= 0x200a) || u == 0x2028 || u == 0x2029 || u == 0x202f || u == 0x205f || u == 0x3000
}

/// `i` is the first position of `s` whose character satisfies `p`.
pub open spec fn first_where(s: Seq<char>, p: spec_fn(char) -> bool, i: int) -> bool {
    0 <= i < s.len() && p(s[i]) && forall|j: int| 0 <= j < i ==> !p(#[trigger] s[j])
}

/// The first position of `s` whose character satisfies `p`, if any.
pub open spec fn find_where(s: Seq<char>, p: spec_fn(char) -> bool) -> Option<int> {
    if exists|i: int| first_where(s, p, i) {
        Some(choose|i: int| first_where(s, p, i))
    } else {
        None
    }
}

/// The first position of the character `c` in `s`, if any.
pub open spec fn find_char(s: Seq<char>, c: char) -> Option<int> {
    find_where(s, equals(c))
}

/// The test "is the character `c`".
pub open spec fn equals(c: char) -> spec_fn(char) -> bool {
    |x: char| x == c
}

/// A first position that satisfies `p` is the one that `find_where` gives.
pub proof fn lemma_first_unique(s: Seq<char>, p: spec_fn(char) -> bool, i: int)
    requires
        first_where(s, p, i),
    ensures
        find_where(s, p) == Some(i),
{
    let k = choose|k: int| first_where(s, p, k);
    assert(first_where(s, p, k));
    if k < i {
        assert(!p(s[k]));
    } else if i < k {
        assert(!p(s[i]));
    }
}

/// With no position that satisfies `p`, `find_where` gives none.
pub proof fn lemma_none_found(s: Seq<char>, p: spec_fn(char) -> bool)
    requires
        forall|j: int| 0 <= j < s.len() ==> !p(#[trigger] s[j]),
    ensures
        find_where(s, p) is None,
{
}

/// The position of the first `c` in `v`.
pub fn position(v: &[char], c: char) -> (r: Option<usize>)
    ensures
        r matches Some(i) ==> find_char(v@, c) == Some(i as int),
        r matches Some(i) ==> i < v@.len() && v@[i as int] == c,
        r is None ==> find_char(v@, c) is None,
        r is None ==> !v@.contains(c),
{
    let mut i: usize = 0;
    while i < v.len()
        invariant
            i <= v@.len(),
            forall|j: int| 0 <= j < i ==> v@[j] != c,
        decreases v@.len() - i,
    {
        if v[i] == c {
            proof {
                lemma_first_unique(v@, equals(c), i as int);
            }
            return Some(i);
        }
        i = i + 1;
    }
    proof {
        lemma_none_found(v@, equals(c));
    }
    None
}

/// The views of a sequence of character vectors.
pub open spec fn views(v: Seq<Vec<char>>) -> Seq<Seq<char>> {
    v.map_values(|t: Vec<char>| t@)
}

/// Splitting `s[i..]` on runs of whitespace, where `cur` is the token being
/// read and `done` the tokens already complete.
pub open spec fn split_from(s: Seq<char>, i: int, cur: Seq<char>, done: Seq<Seq<char>>) -> Seq<
    Seq<char>,
>
    decreases s.len() - i,
{
    if i >= s.len() {
        if cur.len() > 0 {
            done.push(cur)
        } else {
            done
        }
    } else if is_space(s[i]) {
        split_from(s, i + 1, seq![], if cur.len() > 0 { done.push(cur) } else { done })
    } else {
        split_from(s, i + 1, cur.push(s[i]), done)
    }
}

/// The maximal runs of non-whitespace characters of `s`, in order.
pub open spec fn tokens(s: Seq<char>) -> Seq<Seq<char>> {
    split_from(s, 0, seq![], seq![])
}

/// The tokens of `v`: its maximal runs of non-whitespace characters.
pub fn split_tokens(v: &[char]) -> (r: Vec<Vec<char>>)
    ensures
        views(r@) == tokens(v@),
{
    let mut done: Vec<Vec<char>> = Vec::new();
    let mut cur: Vec<char> = Vec::new();
    let mut i: usize = 0;
    assert(views(done@) =~= seq![]);
    assert(cur@ =~= seq![]);
    while i < v.len()
        invariant
            i <= v@.len(),
            split_from(v@, i as int, cur@, views(done@)) == tokens(v@),
        decreases v@.len() - i,
    {
        if space(v[i]) {
            if cur.len() > 0 {
                let ghost before = done@;
                done.push(cur);
                assert(views(done@) =~= views(before).push(cur@));
            }
            cur = Vec::new();
            assert(cur@ =~= seq![]);
        } else {
            cur.push(v[i]);
        }
        i = i + 1;
    }
    if cur.len() > 0 {
        let ghost before = done@;
        done.push(cur);
        assert(views(done@) =~= views(before).push(cur@));
    }
    done
}

/// No character of `s` separates tokens.
pub open spec fn no_space(s: Seq<char>) -> bool {
    forall|i: int| 0 <= i < s.len() ==> !is_space(#[trigger] s[i])
}

/// Splitting a stretch without whitespace adds it to the token being read.
pub proof fn lemma_split_word(s: Seq<char>, i: int, cur: Seq<char>, done: Seq<Seq<char>>)
    requires
        0 <= i <= s.len(),
        no_space(s.subrange(i, s.len() as int)),
    ensures
        split_from(s, i, cur, done) == if cur.len() + s.len() - i > 0 {
            done.push(cur + s.subrange(i, s.len() as int))
        } else {
            done
        },
    decreases s.len() - i,
{
    if i < s.len() {
        assert(s.subrange(i, s.len() as int)[0] == s[i]);
        assert(s.subrange(i + 1, s.len() as int) =~= s.subrange(i, s.len() as int).drop_first());
        lemma_split_word(s, i + 1, cur.push(s[i]), done);
        assert(cur.push(s[i]) + s.subrange(i + 1, s.len() as int) =~= cur + s.subrange(
            i,
            s.len() as int,
        ));
    } else {
        assert(cur + s.subrange(i, i) =~= cur);
    }
}

/// Splitting up to a whitespace character completes the token being read.
pub proof fn lemma_split_space(
    s: Seq<char>,
    i: int,
    k: int,
    cur: Seq<char>,
    done: Seq<Seq<char>>,
)
    requires
        0 <= i <= k < s.len(),
        no_space(s.subrange(i, k)),
        is_space(s[k]),
    ensures
        split_from(s, i, cur, done) == split_from(
            s,
            k + 1,
            seq![],
            if cur.len() + k - i > 0 {
                done.push(cur + s.subrange(i, k))
            } else {
                done
            },
        ),
    decreases k - i,
{
    if i < k {
        assert(s.subrange(i, k)[0] == s[i]);
        assert(s.subrange(i + 1, k) =~= s.subrange(i, k).drop_first());
        lemma_split_space(s, i + 1, k, cur.push(s[i]), done);
        assert(cur.push(s[i]) + s.subrange(i + 1, k) =~= cur + s.subrange(i, k));
    } else {
        assert(cur + s.subrange(i, i) =~= cur);
    }
}

/// A word with no whitespace is one token.
pub proof fn lemma_tokens_one(w: Seq<char>)
    requires
        w.len() > 0,
        no_space(w),
    ensures
        tokens(w) == seq![w],
{
    assert(w.subrange(0, w.len() as int) =~= w);
    lemma_split_word(w, 0, seq![], seq![]);
    assert(seq![] + w =~= w);
    assert(Seq::<Seq<char>>::empty().push(w) =~= seq![w]);
}

/// Two words with no whitespace, one space between them, are two tokens.
pub proof fn lemma_tokens_two(a: Seq<char>, b: Seq<char>)
    requires
        a.len() > 0,
        b.len() > 0,
        no_space(a),
        no_space(b),
    ensures
        tokens(a + seq![' '] + b) == seq![a, b],
{
    let s = a + seq![' '] + b;
    let k = a.len() as int;
    assert(s.subrange(0, k) =~= a);
    assert(s[k] == ' ');
    lemma_split_space(s, 0, k, seq![], seq![]);
    assert(seq![] + a =~= a);
    assert(s.subrange(k + 1, s.len() as int) =~= b);
    lemma_split_word(s, k + 1, seq![], seq![a]);
    assert(seq![] + b =~= b);
    assert(seq![a].push(b) =~= seq![a, b]);
}

/// `pat` stands in `s` from position `i`.
pub open spec fn occurs_at(s: Seq<char>, pat: Seq<char>, i: int) -> bool {
    0 <= i && i + pat.len() <= s.len() && s.subrange(i, i + pat.len()) == pat
}

/// `i` is the first position where `pat` stands in `s`.
pub open spec fn first_occurrence(s: Seq<char>, pat: Seq<char>, i: int) -> bool {
    occurs_at(s, pat, i) && forall|j: int| 0 <= j < i ==> !occurs_at(s, pat, j)
}

/// The first position where `pat` stands in `s`, if any.
pub open spec fn find_seq(s: Seq<char>, pat: Seq<char>) -> Option<int> {
    if exists|i: int| first_occurrence(s, pat, i) {
        Some(choose|i: int| first_occurrence(s, pat, i))
    } else {
        None
    }
}

/// Whether `pat` stands in `v` from position `i`.
fn occurs(v: &[char], pat: &[char], i: usize) -> (r: bool)
    requires
        i + pat@.len() <= v@.len(),
    ensures
        r == occurs_at(v@, pat@, i as int),
{
    let n = v.len();
    let mut k: usize = 0;
    while k < pat.len()
        invariant
            n == v@.len(),
            i + pat@.len() <= v@.len(),
            k <= pat@.len(),
            forall|j: int| 0 <= j < k ==> v@[i + j] == pat@[j],
        decreases pat@.len() - k,
    {
        assert(i + k < v@.len());
        if v[i + k] != pat[k] {
            assert(v@.subrange(i as int, i + pat@.len())[k as int] != pat@[k as int]);
            return false;
        }
        k = k + 1;
    }
    assert(v@.subrange(i as int, i + pat@.len()) =~= pat@);
    true
}

/// The first position where `pat` stands in `v`.
pub fn find_slice(v: &[char], pat: &[char]) -> (r: Option<usize>)
    requires
        pat@.len() > 0,
    ensures
        r matches Some(i) ==> find_seq(v@, pat@) == Some(i as int),
        r is None ==> find_seq(v@, pat@) is None,
{
    if pat.len() > v.len() {
        assert forall|i: int| !first_occurrence(v@, pat@, i) by {}
        return None;
    }
    let mut i: usize = 0;
    while pat.len() <= v.len() - i
        invariant
            pat@.len() > 0,
            i <= v@.len(),
            forall|j: int| 0 <= j < i ==> !occurs_at(v@, pat@, j),
        decreases v@.len() - i,
    {
        if occurs(v, pat, i) {
            proof {
                assert(first_occurrence(v@, pat@, i as int));
                let k = choose|k: int| first_occurrence(v@, pat@, k);
                if k < i {
                } else if i < k {
                    assert(!occurs_at(v@, pat@, i as int));
                }
            }
            return Some(i);
        }
        i = i + 1;
    }
    assert forall|j: int| !first_occurrence(v@, pat@, j) by {
        if 0 <= j < i {
        }
    }
    None
}

/// The text that follows a syslog envelope, starting at `http`.
pub open spec fn envelope_mark() -> Seq<char> {
    seq![':', ' ', 'h', 't', 't', 'p']
}

/// A line without its syslog envelope: when it starts with `<` and is longer
/// than one character, everything from two characters after the first
/// `": http"`; else the line unchanged.
pub open spec fn strip_envelope(line: Seq<char>) -> Seq<char> {
    if line.len() > 1 && line[0] == '<' {
        match find_seq(line, envelope_mark()) {
            Some(i) => line.subrange(i + 2, line.len() as int),
            None => line,
        }
    } else {
        line
    }
}

/// `line` without its syslog envelope, if it has one.
pub fn strip(line: &[char]) -> (r: Vec<char>)
    ensures
        r@ == strip_envelope(line@),
{
    if line.len() > 1 && line[0] == '<' {
        let mark = vec![':', ' ', 'h', 't', 't', 'p'];
        assert(mark@ =~= envelope_mark());
        match find_slice(line, mark.as_slice()) {
            Some(i) => slice(line, i + 2, line.len()),
            None => slice(line, 0, line.len()),
        }
    } else {
        slice(line, 0, line.len())
    }
}

/// `s` with one quote taken from each end, when it has a quote at each end.
pub open spec fn unquote(s: Seq<char>) -> Option<Seq<char>> {
    if s.len() >= 2 && s[0] == '\'' && s.last() == '\'' {
        Some(s.subrange(1, s.len() - 1))
    } else {
        None
    }
}

/// The text between the quotes of `v`, as `unquote` says.
pub fn parse_quoted(v: &[char]) -> (r: Option<Vec<char>>)
    ensures
        r is Some <==> unquote(v@) is Some,
        r matches Some(x) ==> unquote(v@) == Some(x@),
{
    let n = v.len();
    if n >= 2 && v[0] == '\'' && v[n - 1] == '\'' {
        Some(slice(v, 1, n - 1))
    } else {
        None
    }
}

/// `a` comes strictly before `b` in lexicographic order of code points.
pub open spec fn lex_less(a: Seq<char>, b: Seq<char>) -> bool
    decreases a.len(),
{
    if a.len() == 0 {
        b.len() > 0
    } else if b.len() == 0 {
        false
    } else if a[0] != b[0] {
        (a[0] as u32) < (b[0] as u32)
    } else {
        lex_less(a.drop_first(), b.drop_first())
    }
}

/// Whether `a` comes strictly before `b`, as `lex_less` says.
pub fn less(a: &[char], b: &[char]) -> (r: bool)
    ensures
        r == lex_less(a@, b@),
{
    let mut i: usize = 0;
    assert(a@.skip(0) =~= a@);
    assert(b@.skip(0) =~= b@);
    loop
        invariant
            i <= a@.len(),
            i <= b@.len(),
            lex_less(a@, b@) == lex_less(a@.skip(i as int), b@.skip(i as int)),
        decreases a@.len() - i,
    {
        if i == a.len() {
            return i < b.len();
        }
        if i == b.len() {
            return false;
        }
        if a[i] != b[i] {
            return (a[i] as u32) < (b[i] as u32);
        }
        assert(a@.skip(i as int).drop_first() =~= a@.skip(i + 1));
        assert(b@.skip(i as int).drop_first() =~= b@.skip(i + 1));
        i = i + 1;
    }
}

/// Whether `a` and `b` hold the same characters.
pub fn same(a: &[char], b: &[char]) -> (r: bool)
    ensures
        r == (a@ == b@),
{
    if a.len() != b.len() {
        return false;
    }
    let mut i: usize = 0;
    while i < a.len()
        invariant
            a@.len() == b@.len(),
            i <= a@.len(),
            forall|j: int| 0 <= j < i ==> a@[j] == b@[j],
        decreases a@.len() - i,
    {
        if a[i] != b[i] {
            return false;
        }
        i = i + 1;
    }
    assert(a@ =~= b@);
    true
}

/// The comparison operators of a predicate.
pub open spec fn operator() -> spec_fn(char) -> bool {
    |c: char| c == '<' || c == '>' || c == '='
}

/// The position of the first comparison operator in `v`.
pub fn find_operator(v: &[char]) -> (r: Option<usize>)
    ensures
        r matches Some(i) ==> find_where(v@, operator()) == Some(i as int) && i < v@.len(),
        r is None ==> find_where(v@, operator()) is None,
{
    let mut i: usize = 0;
    while i < v.len()
        invariant
            i <= v@.len(),
            forall|j: int| 0 <= j < i ==> !operator()(#[trigger] v@[j]),
        decreases v@.len() - i,
    {
        let c = v[i];
        if c == '<' || c == '>' || c == '=' {
            proof {
                lemma_first_unique(v@, operator(), i as int);
            }
            return Some(i);
        }
        i = i + 1;
    }
    proof {
        lemma_none_found(v@, operator());
    }
    None
}

} // verus!
