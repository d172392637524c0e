//! Character-sequence models and verified string helpers shared by the
//! wire codec and the router: splitting on two-character separators such
//! as CRLF, whitespace tokenizing, trimming, prefix stripping, and decimal
//! numbers.

use vstd::prelude::*;
use vstd::string::*;

verus! {

/// The Unicode `White_Space` characters, exactly the set that
/// `char::is_whitespace` in std recognizes.
pub open spec fn is_ws(c: char) -> bool {
    c == ' ' || c == '\t' || c == '\n' || c == '\u{b}' || c == '\u{c}' || c == '\r'
        || c == '\u{85}' || c == '\u{a0}' || c == '\u{1680}' || c == '\u{2000}'
        || c == '\u{2001}' || c == '\u{2002}' || c == '\u{2003}' || c == '\u{2004}'
        || c == '\u{2005}' || c == '\u{2006}' || c == '\u{2007}' || c == '\u{2008}'
        || c == '\u{2009}' || c == '\u{200a}' || c == '\u{2028}' || c == '\u{2029}'
        || c == '\u{202f}' || c == '\u{205f}' || c == '\u{3000}'
}

/// Decides `is_ws` on a concrete character.
pub fn char_is_ws(c: char) -> (r: bool)
    ensures
        r == is_ws(c),
{
    c == ' ' || c == '\t' || c == '\n' || c == '\u{b}' || c == '\u{c}' || c == '\r'
        || c == '\u{85}' || c == '\u{a0}' || c == '\u{1680}' || c == '\u{2000}'
        || c == '\u{2001}' || c == '\u{2002}' || c == '\u{2003}' || c == '\u{2004}'
        || c == '\u{2005}' || c == '\u{2006}' || c == '\u{2007}' || c == '\u{2008}'
        || c == '\u{2009}' || c == '\u{200a}' || c == '\u{2028}' || c == '\u{2029}'
        || c == '\u{202f}' || c == '\u{205f}' || c == '\u{3000}'
}

/// The views of a sequence of strings.
pub open spec fn views(ss: Seq<String>) -> Seq<Seq<char>> {
    ss.map_values(|x: String| x@)
}

// ---------------------------------------------------------------------------
// Splitting on a two-character separator (CRLF, ", ", ": ").
// ---------------------------------------------------------------------------

/// The separator `ab` occurs in `s` at position `j`.
pub open spec fn sep2_at(s: Seq<char>, a: char, b: char, j: int) -> bool {
    0 <= j && j + 2 <= s.len() && s[j] == a && s[j + 1] == b
}

/// The separator `ab` occurs somewhere in `s`.
pub open spec fn has_sep2(s: Seq<char>, a: char, b: char) -> bool {
    exists|j: int| sep2_at(s, a, b, j)
}

/// The position of the first occurrence of the separator `ab` in `s` at or
/// after position `i`, if any.
pub open spec fn first_sep2_from(s: Seq<char>, a: char, b: char, i: int) -> Option<int>
    decreases s.len() - i,
{
    if i < 0 || i + 2 > s.len() {
        None
    } else if s[i] == a && s[i + 1] == b {
        Some(i)
    } else {
        first_sep2_from(s, a, b, i + 1)
    }
}

/// The position of the first occurrence of the separator `ab` in `s`.
pub open spec fn first_sep2(s: Seq<char>, a: char, b: char) -> Option<int> {
    first_sep2_from(s, a, b, 0)
}

pub proof fn lemma_first_sep2_from_bounds(s: Seq<char>, a: char, b: char, i: int)
    requires
        0 <= i <= s.len(),
    ensures
        match first_sep2_from(s, a, b, i) {
            Some(j) => i <= j && j + 2 <= s.len() && sep2_at(s, a, b, j) && (forall|k: int|
                i <= k < j ==> !sep2_at(s, a, b, k)),
            None => forall|k: int| k >= i ==> !sep2_at(s, a, b, k),
        },
    decreases s.len() - i,
{
    if i + 2 > s.len() {
    } else if s[i] == a && s[i + 1] == b {
    } else {
        lemma_first_sep2_from_bounds(s, a, b, i + 1);
    }
}

/// The unique position `j0` that carries the separator with none before it
/// is what `first_sep2_from` returns.
pub proof fn lemma_first_sep2_from_exact(s: Seq<char>, a: char, b: char, i: int, j0: int)
    requires
        0 <= i <= j0,
        sep2_at(s, a, b, j0),
        forall|k: int| i <= k < j0 ==> !sep2_at(s, a, b, k),
    ensures
        first_sep2_from(s, a, b, i) == Some(j0),
    decreases j0 - i,
{
    if i < j0 {
        assert(!sep2_at(s, a, b, i));
        lemma_first_sep2_from_exact(s, a, b, i + 1, j0);
        assert(first_sep2_from(s, a, b, i) == first_sep2_from(s, a, b, i + 1));
    } else {
        assert(first_sep2_from(s, a, b, i) == Some(i));
    }
}

/// `s` split on every occurrence of the separator `ab`; always at least one
/// piece, and none of the pieces holds the separator.
pub open spec fn split2(s: Seq<char>, a: char, b: char) -> Seq<Seq<char>>
    decreases s.len(),
    via split2_dec
{
    match first_sep2(s, a, b) {
        None => seq![s],
        Some(j) => seq![s.subrange(0, j)] + split2(s.skip(j + 2), a, b),
    }
}

#[via_fn]
proof fn split2_dec(s: Seq<char>, a: char, b: char) {
    lemma_first_sep2_from_bounds(s, a, b, 0);
}

/// The pieces glued back together with the separator `ab` between them.
pub open spec fn join2(parts: Seq<Seq<char>>, a: char, b: char) -> Seq<char>
    decreases parts.len(),
{
    if parts.len() == 0 {
        Seq::empty()
    } else if parts.len() == 1 {
        parts[0]
    } else {
        parts[0] + seq![a, b] + join2(parts.drop_first(), a, b)
    }
}

pub proof fn lemma_split2_len(s: Seq<char>, a: char, b: char)
    ensures
        split2(s, a, b).len() >= 1,
    decreases s.len(),
{
    lemma_first_sep2_from_bounds(s, a, b, 0);
}

/// Splitting and rejoining restores the input.
pub proof fn lemma_join2_split2(s: Seq<char>, a: char, b: char)
    ensures
        join2(split2(s, a, b), a, b) == s,
    decreases s.len(),
{
    lemma_first_sep2_from_bounds(s, a, b, 0);
    match first_sep2(s, a, b) {
        None => {
            assert(join2(split2(s, a, b), a, b) =~= s);
        },
        Some(j) => {
            let rest = s.skip(j + 2);
            lemma_join2_split2(rest, a, b);
            lemma_split2_len(rest, a, b);
            let parts = split2(s, a, b);
            assert(parts.drop_first() =~= split2(rest, a, b));
            assert(join2(parts, a, b) =~= s);
        },
    }
}

/// Splitting a string that begins with a separator-free piece followed by
/// the separator peels off exactly that piece.
pub proof fn lemma_split2_prefix(x: Seq<char>, rest: Seq<char>, a: char, b: char)
    requires
        !has_sep2(x, a, b),
        a != b,
    ensures
        split2(x + seq![a, b] + rest, a, b) == seq![x] + split2(rest, a, b),
{
    let s = x + seq![a, b] + rest;
    let n = x.len() as int;
    assert(sep2_at(s, a, b, n));
    assert forall|k: int| 0 <= k < n implies !sep2_at(s, a, b, k) by {
        if k + 2 <= n {
            if sep2_at(s, a, b, k) {
                assert(x[k] == a && x[k + 1] == b);
                assert(sep2_at(x, a, b, k));
            }
        } else {
            // k == n - 1: the character after x.last() is `a`, which is not `b`.
            assert(s[k + 1] == a);
        }
    }
    lemma_first_sep2_from_exact(s, a, b, 0, n);
    assert(s.subrange(0, n) =~= x);
    assert(s.skip(n + 2) =~= rest);
    assert(split2(s, a, b) =~= seq![x] + split2(rest, a, b));
}

/// A concatenation of separator-free strings whose boundary does not form
/// the separator is separator-free.
pub proof fn lemma_no_sep2_concat(x: Seq<char>, y: Seq<char>, a: char, b: char)
    requires
        !has_sep2(x, a, b),
        !has_sep2(y, a, b),
        !(x.len() > 0 && y.len() > 0 && x.last() == a && y[0] == b),
    ensures
        !has_sep2(x + y, a, b),
{
    let s = x + y;
    assert forall|j: int| !sep2_at(s, a, b, j) by {
        if 0 <= j && j + 2 <= s.len() {
            if j + 2 <= x.len() {
                assert(!sep2_at(x, a, b, j));
                assert(x[j] == s[j] && x[j + 1] == s[j + 1]);
            } else if j >= x.len() {
                assert(!sep2_at(y, a, b, j - x.len()));
                assert(y[j - x.len()] == s[j] && y[j - x.len() + 1] == s[j + 1]);
            } else {
                // j == x.len() - 1: the pair straddles the boundary.
                assert(s[j] == x.last() && s[j + 1] == y[0]);
            }
        }
    }
}

/// Finds the first occurrence of the separator `ab` in `s`.
pub fn find_sep2(s: &str, a: char, b: char) -> (r: Option<usize>)
    ensures
        match r {
            Some(j) => first_sep2(s@, a, b) == Some(j as int),
            None => first_sep2(s@, a, b) is None,
        },
{
    let n = s.unicode_len();
    let mut i: usize = 0;
    loop
        invariant
            0 <= i <= n,
            n == s@.len(),
            first_sep2(s@, a, b) == first_sep2_from(s@, a, b, i as int),
        decreases n - i,
    {
        if n < 2 || i >= n - 1 {
            return None;
        }
        let c0 = s.get_char(i);
        let c1 = s.get_char(i + 1);
        if c0 == a && c1 == b {
            return Some(i);
        }
        i = i + 1;
    }
}

/// Splits `s` on every occurrence of the separator `ab`.
pub fn split2_exec(s: &str, a: char, b: char) -> (r: Vec<String>)
    ensures
        views(r@) == split2(s@, a, b),
{
    let mut acc: Vec<String> = Vec::new();
    let mut rest: &str = s;
    loop
        invariant
            split2(s@, a, b) == views(acc@) + split2(rest@, a, b),
        decreases rest@.len(),
    {
        match find_sep2(rest, a, b) {
            None => {
                let ghost old_acc = acc@;
                acc.push(rest.to_owned());
                proof {
                    assert(views(acc@) =~= views(old_acc) + seq![rest@]);
                    assert(views(acc@) + Seq::<Seq<char>>::empty() =~= views(acc@));
                    assert(split2(s@, a, b) =~= views(acc@));
                }
                return acc;
            },
            Some(j) => {
                proof {
                    lemma_first_sep2_from_bounds(rest@, a, b, 0);
                }
                let piece = rest.substring_char(0, j);
                let n2 = rest.unicode_len();
                let next = rest.substring_char(j + 2, n2);
                let ghost old_acc = acc@;
                let ghost old_rest = rest@;
                acc.push(piece.to_owned());
                rest = next;
                proof {
                    assert(rest@ =~= old_rest.skip(j + 2));
                    assert(views(acc@) =~= views(old_acc) + seq![old_rest.subrange(0, j as int)]);
                    assert(views(acc@) + split2(rest@, a, b) =~= views(old_acc) + split2(
                        old_rest,
                        a,
                        b,
                    ));
                }
            },
        }
    }
}

/// Glues the pieces back together with CRLF between them.
pub fn join_crlf(parts: &[String]) -> (r: String)
    ensures
        r@ == join2(views(parts@), '\r', '\n'),
{
    proof {
        reveal_strlit("\r\n");
    }
    let mut out = String::new();
    if parts.len() == 0 {
        proof {
            assert(views(parts@) =~= Seq::<Seq<char>>::empty());
        }
        return out;
    }
    out.append(parts[0].as_str());
    let mut i: usize = 1;
    proof {
        assert(views(parts@).take(1) =~= seq![parts@[0]@]);
    }
    while i < parts.len()
        invariant
            1 <= i <= parts@.len(),
            out@ == join2(views(parts@).take(i as int), '\r', '\n'),
        decreases parts@.len() - i,
    {
        out.append("\r\n");
        out.append(parts[i].as_str());
        proof {
            reveal_strlit("\r\n");
            let p = views(parts@).take(i as int);
            lemma_join2_push(p, parts@[i as int]@, '\r', '\n');
            assert(p.push(parts@[i as int]@) =~= views(parts@).take(i + 1));
        }
        i = i + 1;
    }
    proof {
        assert(views(parts@).take(parts@.len() as int) =~= views(parts@));
    }
    out
}

/// Appending one more piece appends one more separator and the piece.
pub proof fn lemma_join2_push(parts: Seq<Seq<char>>, x: Seq<char>, a: char, b: char)
    requires
        parts.len() >= 1,
    ensures
        join2(parts.push(x), a, b) == join2(parts, a, b) + seq![a, b] + x,
    decreases parts.len(),
{
    if parts.len() == 1 {
        assert(parts.push(x).drop_first() =~= seq![x]);
        assert(join2(seq![x], a, b) == x);
        assert(parts.push(x)[0] == parts[0]);
        assert(join2(parts, a, b) == parts[0]);
        assert(join2(parts.push(x), a, b) =~= join2(parts, a, b) + seq![a, b] + x);
    } else {
        lemma_join2_push(parts.drop_first(), x, a, b);
        assert(parts.push(x).drop_first() =~= parts.drop_first().push(x));
        assert(join2(parts.push(x), a, b) =~= join2(parts, a, b) + seq![a, b] + x);
    }
}

// ---------------------------------------------------------------------------
// Splitting on a single character.
// ---------------------------------------------------------------------------

/// The position of the first occurrence of `c` in `s` at or after
/// position `i`, if any.
pub open spec fn first_char_from(s: Seq<char>, c: char, i: int) -> Option<int>
    decreases s.len() - i,
{
    if i < 0 || i >= s.len() {
        None
    } else if s[i] == c {
        Some(i)
    } else {
        first_char_from(s, c, i + 1)
    }
}

/// The position of the first occurrence of `c` in `s`.
pub open spec fn first_char(s: Seq<char>, c: char) -> Option<int> {
    first_char_from(s, c, 0)
}

pub proof fn lemma_first_char_from_bounds(s: Seq<char>, c: char, i: int)
    requires
        0 <= i <= s.len(),
    ensures
        match first_char_from(s, c, i) {
            Some(j) => i <= j < s.len() && s[j] == c,
            None => forall|k: int| i <= k < s.len() ==> s[k] != c,
        },
    decreases s.len() - i,
{
    if i < s.len() && s[i] != c {
        lemma_first_char_from_bounds(s, c, i + 1);
    }
}

/// `s` split on every occurrence of `c`; always at least one piece.
pub open spec fn split1(s: Seq<char>, c: char) -> Seq<Seq<char>>
    decreases s.len(),
    via split1_dec
{
    match first_char(s, c) {
        None => seq![s],
        Some(j) => seq![s.subrange(0, j)] + split1(s.skip(j + 1), c),
    }
}

#[via_fn]
proof fn split1_dec(s: Seq<char>, c: char) {
    lemma_first_char_from_bounds(s, c, 0);
}

/// Finds the first occurrence of `c` in `s`.
pub fn find_char(s: &str, c: char) -> (r: Option<usize>)
    ensures
        match r {
            Some(j) => first_char(s@, c) == Some(j as int),
            None => first_char(s@, c) is None,
        },
{
    let n = s.unicode_len();
    let mut i: usize = 0;
    loop
        invariant
            0 <= i <= n,
            n == s@.len(),
            first_char(s@, c) == first_char_from(s@, c, i as int),
        decreases n - i,
    {
        if i >= n {
            return None;
        }
        if s.get_char(i) == c {
            return Some(i);
        }
        i = i + 1;
    }
}

/// Splits `s` on every occurrence of `c`.
pub fn split1_exec(s: &str, c: char) -> (r: Vec<String>)
    ensures
        views(r@) == split1(s@, c),
{
    let mut acc: Vec<String> = Vec::new();
    let mut rest: &str = s;
    loop
        invariant
            split1(s@, c) == views(acc@) + split1(rest@, c),
        decreases rest@.len(),
    {
        match find_char(rest, c) {
            None => {
                let ghost old_acc = acc@;
                acc.push(rest.to_owned());
                proof {
                    assert(views(acc@) =~= views(old_acc) + seq![rest@]);
                    assert(views(acc@) + Seq::<Seq<char>>::empty() =~= views(acc@));
                    assert(split1(s@, c) =~= views(acc@));
                }
                return acc;
            },
            Some(j) => {
                proof {
                    lemma_first_char_from_bounds(rest@, c, 0);
                }
                let piece = rest.substring_char(0, j);
                let n2 = rest.unicode_len();
                let next = rest.substring_char(j + 1, n2);
                let ghost old_acc = acc@;
                let ghost old_rest = rest@;
                acc.push(piece.to_owned());
                rest = next;
                proof {
                    assert(rest@ =~= old_rest.skip(j + 1));
                    assert(views(acc@) =~= views(old_acc) + seq![old_rest.subrange(0, j as int)]);
                    assert(views(acc@) + split1(rest@, c) =~= views(old_acc) + split1(
                        old_rest,
                        c,
                    ));
                }
            },
        }
    }
}

// ---------------------------------------------------------------------------
// Whitespace tokens.
// ---------------------------------------------------------------------------

/// The length of the leading run of non-whitespace characters.
pub open spec fn tok_len(s: Seq<char>) -> int
    decreases s.len(),
{
    if s.len() == 0 || is_ws(s[0]) {
        0
    } else {
        1 + tok_len(s.skip(1))
    }
}

pub proof fn lemma_tok_len_bounds(s: Seq<char>)
    ensures
        0 <= tok_len(s) <= s.len(),
        s.len() > 0 && !is_ws(s[0]) ==> tok_len(s) >= 1,
    decreases s.len(),
{
    if s.len() > 0 && !is_ws(s[0]) {
        lemma_tok_len_bounds(s.skip(1));
    }
}

/// A scan that saw `n` non-whitespace characters and then the end or a
/// whitespace character has found the leading token length.
pub proof fn lemma_tok_len_is(s: Seq<char>, n: int)
    requires
        0 <= n <= s.len(),
        forall|k: int| 0 <= k < n ==> !is_ws(s[k]),
        n == s.len() || is_ws(s[n]),
    ensures
        tok_len(s) == n,
    decreases n,
{
    if n == 0 {
    } else {
        lemma_tok_len_is(s.skip(1), n - 1);
    }
}

/// `s` split on runs of whitespace: the non-empty tokens, in order.
pub open spec fn split_ws(s: Seq<char>) -> Seq<Seq<char>>
    decreases s.len(),
    via split_ws_dec
{
    if s.len() == 0 {
        Seq::empty()
    } else if is_ws(s[0]) {
        split_ws(s.skip(1))
    } else {
        seq![s.subrange(0, tok_len(s))] + split_ws(s.skip(tok_len(s)))
    }
}

#[via_fn]
proof fn split_ws_dec(s: Seq<char>) {
    lemma_tok_len_bounds(s);
}

/// A whitespace-free, non-empty token followed by nothing or by a
/// whitespace character is the first token of the concatenation.
pub proof fn lemma_split_ws_token(t: Seq<char>, rest: Seq<char>)
    requires
        t.len() > 0,
        forall|k: int| 0 <= k < t.len() ==> !is_ws(t[k]),
        rest.len() == 0 || is_ws(rest[0]),
    ensures
        split_ws(t + rest) == seq![t] + split_ws(rest),
{
    let s = t + rest;
    assert(s[0] == t[0]);
    assert forall|k: int| 0 <= k < t.len() implies !is_ws(s[k]) by {
        assert(s[k] == t[k]);
    }
    if rest.len() > 0 {
        assert(s[t.len() as int] == rest[0]);
    }
    lemma_tok_len_is(s, t.len() as int);
    assert(s.subrange(0, t.len() as int) =~= t);
    assert(s.skip(t.len() as int) =~= rest);
}

/// A leading whitespace character drops out of the token split.
pub proof fn lemma_split_ws_space(c: char, rest: Seq<char>)
    requires
        is_ws(c),
    ensures
        split_ws(seq![c] + rest) == split_ws(rest),
{
    let s = seq![c] + rest;
    assert(s[0] == c);
    assert(s.skip(1) =~= rest);
}

/// Splits `s` into its whitespace-separated tokens.
pub fn split_ws_exec(s: &str) -> (r: Vec<String>)
    ensures
        views(r@) == split_ws(s@),
{
    let n = s.unicode_len();
    let mut acc: Vec<String> = Vec::new();
    let mut i: usize = 0;
    proof {
        assert(s@.skip(0) =~= s@);
        assert(views(acc@) + split_ws(s@) =~= split_ws(s@));
    }
    while i < n
        invariant
            0 <= i <= n,
            n == s@.len(),
            split_ws(s@) == views(acc@) + split_ws(s@.skip(i as int)),
        decreases n - i,
    {
        let c = s.get_char(i);
        if char_is_ws(c) {
            proof {
                assert(s@.skip(i as int).skip(1) =~= s@.skip(i + 1));
            }
            i = i + 1;
        } else {
            let mut j: usize = i + 1;
            while j < n && !char_is_ws(s.get_char(j))
                invariant
                    i < j <= n,
                    n == s@.len(),
                    forall|k: int| i <= k < j ==> !is_ws(s@[k]),
                decreases n - j,
            {
                j = j + 1;
            }
            let tok = s.substring_char(i, j).to_owned();
            let ghost old_acc = acc@;
            let ghost rest = s@.skip(i as int);
            acc.push(tok);
            proof {
                assert(forall|k: int| 0 <= k < j - i ==> rest[k] == s@[i + k]);
                lemma_tok_len_is(rest, j - i);
                assert(rest.subrange(0, j - i) =~= s@.subrange(i as int, j as int));
                assert(rest.skip(j - i) =~= s@.skip(j as int));
                assert(views(acc@) =~= views(old_acc) + seq![s@.subrange(i as int, j as int)]);
                assert(views(acc@) + split_ws(s@.skip(j as int)) =~= views(old_acc) + split_ws(
                    rest,
                ));
            }
            i = j;
        }
    }
    proof {
        assert(s@.skip(n as int) =~= Seq::<char>::empty());
        assert(views(acc@) + Seq::<Seq<char>>::empty() =~= views(acc@));
    }
    acc
}

// ---------------------------------------------------------------------------
// Trimming whitespace.
// ---------------------------------------------------------------------------

/// The length of the leading run of whitespace characters.
pub open spec fn ws_prefix(s: Seq<char>) -> int
    decreases s.len(),
{
    if s.len() > 0 && is_ws(s[0]) {
        1 + ws_prefix(s.skip(1))
    } else {
        0
    }
}

/// The length of the trailing run of whitespace characters.
pub open spec fn ws_suffix(s: Seq<char>) -> int
    decreases s.len(),
{
    if s.len() > 0 && is_ws(s.last()) {
        1 + ws_suffix(s.drop_last())
    } else {
        0
    }
}

/// `s` with leading and trailing whitespace removed, as `str::trim` does.
pub open spec fn trim(s: Seq<char>) -> Seq<char> {
    let lo = ws_prefix(s);
    let hi = s.len() - ws_suffix(s);
    if lo < hi {
        s.subrange(lo, hi)
    } else {
        Seq::empty()
    }
}

pub proof fn lemma_ws_prefix_is(s: Seq<char>, n: int)
    requires
        0 <= n <= s.len(),
        forall|k: int| 0 <= k < n ==> is_ws(s[k]),
        n == s.len() || !is_ws(s[n]),
    ensures
        ws_prefix(s) == n,
    decreases n,
{
    if n > 0 {
        lemma_ws_prefix_is(s.skip(1), n - 1);
    }
}

pub proof fn lemma_ws_suffix_is(s: Seq<char>, m: int)
    requires
        0 <= m <= s.len(),
        forall|k: int| s.len() - m <= k < s.len() ==> is_ws(s[k]),
        m == s.len() || !is_ws(s[s.len() - m - 1]),
    ensures
        ws_suffix(s) == m,
    decreases m,
{
    if m > 0 {
        lemma_ws_suffix_is(s.drop_last(), m - 1);
    }
}

/// Removes leading and trailing whitespace.
pub fn trim_exec(s: &str) -> (r: String)
    ensures
        r@ == trim(s@),
{
    let n = s.unicode_len();
    let mut lo: usize = 0;
    while lo < n && char_is_ws(s.get_char(lo))
        invariant
            0 <= lo <= n,
            n == s@.len(),
            forall|k: int| 0 <= k < lo ==> is_ws(s@[k]),
        decreases n - lo,
    {
        lo = lo + 1;
    }
    proof {
        lemma_ws_prefix_is(s@, lo as int);
    }
    if lo == n {
        proof {
            lemma_ws_suffix_is(s@, n as int);
        }
        return String::new();
    }
    let mut hi: usize = n;
    while hi > lo && char_is_ws(s.get_char(hi - 1))
        invariant
            lo <= hi <= n,
            n == s@.len(),
            forall|k: int| hi <= k < n ==> is_ws(s@[k]),
        decreases hi,
    {
        hi = hi - 1;
    }
    proof {
        assert(!is_ws(s@[lo as int]));
        assert(hi > lo);
        lemma_ws_suffix_is(s@, n - hi);
    }
    s.substring_char(lo, hi).to_owned()
}

// ---------------------------------------------------------------------------
// Stripping a repeated prefix.
// ---------------------------------------------------------------------------

/// `s` with every leading repetition of `p` removed, as
/// `str::trim_start_matches` does for a literal pattern.
pub open spec fn strip_rep(s: Seq<char>, p: Seq<char>) -> Seq<char>
    decreases s.len(),
    when p.len() > 0
{
    if s.len() >= p.len() && s.subrange(0, p.len() as int) == p {
        strip_rep(s.skip(p.len() as int), p)
    } else {
        s
    }
}

/// Does `p` occur in `s` at position `i`?
pub fn str_matches_at(s: &str, i: usize, p: &str) -> (r: bool)
    requires
        i <= s@.len(),
    ensures
        r == (i + p@.len() <= s@.len() && s@.subrange(i as int, i + p@.len()) == p@),
{
    let n = s.unicode_len();
    let pn = p.unicode_len();
    if pn > n - i {
        return false;
    }
    let mut k: usize = 0;
    while k < pn
        invariant
            0 <= k <= pn,
            n == s@.len(),
            pn == p@.len(),
            i + pn <= n,
            forall|t: int| 0 <= t < k ==> s@[i + t] == p@[t],
        decreases pn - k,
    {
        if s.get_char(i + k) != p.get_char(k) {
            proof {
                assert(s@.subrange(i as int, i + p@.len())[k as int] != p@[k as int]);
            }
            return false;
        }
        k = k + 1;
    }
    proof {
        assert(s@.subrange(i as int, i + p@.len()) =~= p@);
    }
    true
}

/// Removes every leading repetition of `p` from `s`.
pub fn strip_rep_exec(s: &str, p: &str) -> (r: String)
    requires
        p@.len() >= 1,
    ensures
        r@ == strip_rep(s@, p@),
{
    let n = s.unicode_len();
    let pn = p.unicode_len();
    let mut i: usize = 0;
    proof {
        assert(s@.skip(0) =~= s@);
    }
    loop
        invariant
            0 <= i <= n,
            n == s@.len(),
            pn == p@.len(),
            pn >= 1,
            strip_rep(s@, p@) == strip_rep(s@.skip(i as int), p@),
        decreases n - i,
    {
        if !str_matches_at(s, i, p) {
            proof {
                let rest = s@.skip(i as int);
                if rest.len() >= pn && rest.subrange(0, pn as int) == p@ {
                    assert(rest.subrange(0, pn as int) =~= s@.subrange(i as int, i + pn));
                }
            }
            return s.substring_char(i, n).to_owned();
        }
        proof {
            let rest = s@.skip(i as int);
            assert(rest.subrange(0, pn as int) =~= s@.subrange(i as int, i + pn));
            assert(rest.skip(pn as int) =~= s@.skip(i + pn));
        }
        i = i + pn;
    }
}

// ---------------------------------------------------------------------------
// Path segments.
// ---------------------------------------------------------------------------

/// The length of the leading run of characters before a `/`.
pub open spec fn seg_len(s: Seq<char>) -> int
    decreases s.len(),
{
    if s.len() == 0 || s[0] == '/' {
        0
    } else {
        1 + seg_len(s.skip(1))
    }
}

pub proof fn lemma_seg_len_is(s: Seq<char>, n: int)
    requires
        0 <= n <= s.len(),
        forall|k: int| 0 <= k < n ==> s[k] != '/',
        n == s.len() || s[n] == '/',
    ensures
        seg_len(s) == n,
    decreases n,
{
    if n > 0 {
        lemma_seg_len_is(s.skip(1), n - 1);
    }
}

/// The first path segment: what remains after stripping one leading `/`,
/// if there is one, up to the next `/` or the end.
pub open spec fn first_seg(p: Seq<char>) -> Seq<char> {
    let t = if p.len() > 0 && p[0] == '/' {
        p.drop_first()
    } else {
        p
    };
    t.subrange(0, seg_len(t))
}

/// Extracts the first path segment of `p`.
pub fn first_seg_exec(p: &str) -> (r: String)
    ensures
        r@ == first_seg(p@),
{
    let n = p.unicode_len();
    let lo: usize = if n > 0 && p.get_char(0) == '/' {
        1
    } else {
        0
    };
    let ghost t = p@.skip(lo as int);
    proof {
        if lo == 1 {
            assert(t =~= p@.drop_first());
        } else {
            assert(t =~= p@);
        }
    }
    let mut j: usize = lo;
    while j < n && p.get_char(j) != '/'
        invariant
            lo <= j <= n,
            n == p@.len(),
            forall|k: int| lo <= k < j ==> p@[k] != '/',
        decreases n - j,
    {
        j = j + 1;
    }
    proof {
        assert(forall|k: int| 0 <= k < j - lo ==> t[k] == p@[k + lo]);
        lemma_seg_len_is(t, j - lo);
        assert(t.subrange(0, j - lo) =~= p@.subrange(lo as int, j as int));
    }
    p.substring_char(lo, j).to_owned()
}

// ---------------------------------------------------------------------------
// Decimal numbers.
// ---------------------------------------------------------------------------

/// Is `c` one of the ten ASCII digits?
pub open spec fn is_digit(c: char) -> bool {
    48 <= c as u32 && c as u32 <= 57
}

/// The numeric value of an ASCII digit.
pub open spec fn digit_val(c: char) -> nat
    recommends
        is_digit(c),
{
    (c as u32 - 48) as nat
}

/// Every character of `s` is an ASCII digit.
pub open spec fn all_digits(s: Seq<char>) -> bool {
    forall|k: int| 0 <= k < s.len() ==> is_digit(s[k])
}

/// The value of a sequence of ASCII digits, most significant first.
pub open spec fn digits_val(s: Seq<char>) -> nat
    decreases s.len(),
{
    if s.len() == 0 {
        0
    } else {
        10 * digits_val(s.drop_last()) + digit_val(s.last())
    }
}

/// The ASCII digit for a value below ten.
pub open spec fn digit_char(n: nat) -> char
    recommends
        n < 10,
{
    if n == 0 {
        '0'
    } else if n == 1 {
        '1'
    } else if n == 2 {
        '2'
    } else if n == 3 {
        '3'
    } else if n == 4 {
        '4'
    } else if n == 5 {
        '5'
    } else if n == 6 {
        '6'
    } else if n == 7 {
        '7'
    } else if n == 8 {
        '8'
    } else {
        '9'
    }
}

/// The usual decimal notation of `n`, without sign or leading zeros.
pub open spec fn dec_of(n: nat) -> Seq<char>
    decreases n,
{
    if n < 10 {
        seq![digit_char(n)]
    } else {
        dec_of(n / 10).push(digit_char(n % 10))
    }
}

/// The value of a digit string never shrinks as the string grows.
pub proof fn lemma_digits_val_prefix_le(s: Seq<char>, j: int)
    requires
        0 <= j <= s.len(),
    ensures
        digits_val(s.subrange(0, j)) <= digits_val(s),
    decreases s.len() - j,
{
    if j == s.len() {
        assert(s.subrange(0, j) =~= s);
    } else {
        lemma_digits_val_prefix_le(s, j + 1);
        assert(s.subrange(0, j + 1).drop_last() =~= s.subrange(0, j));
        assert(digits_val(s.subrange(0, j + 1)) == 10 * digits_val(s.subrange(0, j)) + digit_val(
            s[j],
        ));
    }
}

/// Parses a non-negative decimal integer, as `str::parse::<usize>` accepts
/// a plain digit string: at least one digit, nothing else, value in range.
pub fn parse_usize(s: &str) -> (r: Option<usize>)
    ensures
        r is Some <==> (s@.len() > 0 && all_digits(s@) && digits_val(s@) <= usize::MAX),
        r is Some ==> r->0 == digits_val(s@),
{
    let n = s.unicode_len();
    if n == 0 {
        return None;
    }
    let mut val: usize = 0;
    let mut i: usize = 0;
    while i < n
        invariant
            0 <= i <= n,
            n == s@.len(),
            n > 0,
            all_digits(s@.subrange(0, i as int)),
            val == digits_val(s@.subrange(0, i as int)),
        decreases n - i,
    {
        let c = s.get_char(i);
        let cu = c as u32;
        if cu < 48 || cu > 57 {
            proof {
                assert(!is_digit(s@[i as int]));
            }
            return None;
        }
        let d = (cu - 48) as usize;
        let ghost prefix = s@.subrange(0, i as int);
        proof {
            assert(s@.subrange(0, i + 1).drop_last() =~= prefix);
            assert(digits_val(s@.subrange(0, i + 1)) == 10 * digits_val(prefix) + digit_val(
                s@[i as int],
            ));
        }
        val = match val.checked_mul(10) {
            Some(v) => v,
            None => {
                proof {
                    lemma_digits_val_prefix_le(s@, i + 1);
                }
                return None;
            },
        };
        val = match val.checked_add(d) {
            Some(v) => v,
            None => {
                proof {
                    lemma_digits_val_prefix_le(s@, i + 1);
                }
                return None;
            },
        };
        i = i + 1;
    }
    proof {
        assert(s@.subrange(0, n as int) =~= s@);
    }
    Some(val)
}

/// The one-character string of an ASCII digit.
fn digit_str(d: usize) -> (r: &'static str)
    requires
        d < 10,
    ensures
        r@ == seq![digit_char(d as nat)],
{
    proof {
        reveal_strlit("0");
        reveal_strlit("1");
        reveal_strlit("2");
        reveal_strlit("3");
        reveal_strlit("4");
        reveal_strlit("5");
        reveal_strlit("6");
        reveal_strlit("7");
        reveal_strlit("8");
        reveal_strlit("9");
    }
    let r = if d == 0 {
        "0"
    } else if d == 1 {
        "1"
    } else if d == 2 {
        "2"
    } else if d == 3 {
        "3"
    } else if d == 4 {
        "4"
    } else if d == 5 {
        "5"
    } else if d == 6 {
        "6"
    } else if d == 7 {
        "7"
    } else if d == 8 {
        "8"
    } else {
        "9"
    };
    proof {
        assert(r@ =~= seq![digit_char(d as nat)]);
    }
    r
}

/// Appends the decimal notation of `n` to `out`.
pub fn push_dec(out: &mut String, n: usize)
    ensures
        final(out)@ == old(out)@ + dec_of(n as nat),
    decreases n,
{
    if n < 10 {
        out.append(digit_str(n));
    } else {
        push_dec(out, n / 10);
        out.append(digit_str(n % 10));
        proof {
            assert(old(out)@ + dec_of(n as nat) =~= old(out)@ + dec_of(n as nat / 10) + seq![
                digit_char(n as nat % 10),
            ]);
        }
    }
}

// ---------------------------------------------------------------------------
// String comparison.
// ---------------------------------------------------------------------------

/// Are the two strings equal, character for character?
pub fn str_eq(a: &str, b: &str) -> (r: bool)
    ensures
        r == (a@ == b@),
{
    let na = a.unicode_len();
    let nb = b.unicode_len();
    if na != nb {
        return false;
    }
    let mut i: usize = 0;
    while i < na
        invariant
            0 <= i <= na,
            na == a@.len(),
            na == b@.len(),
            forall|k: int| 0 <= k < i ==> a@[k] == b@[k],
        decreases na - i,
    {
        if a.get_char(i) != b.get_char(i) {
            return false;
        }
        i = i + 1;
    }
    proof {
        assert(a@ =~= b@);
    }
    true
}

} // verus!
