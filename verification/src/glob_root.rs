//! Deriving a literal root path from a glob pattern.
//!
//! A pattern is scanned left to right for the first metacharacter that is not
//! preceded by the escape character `\`.  Everything before that point is
//! literal text; the root is the unescaped literal prefix up to and including
//! the last path separator seen before the break.  A pattern with no
//! unescaped metacharacter is itself a literal path.  The root is *fully
//! covered* when the rest of the pattern after the root is exactly `**` or
//! `**/*`: every path below the root then matches, which lets a later walk
//! skip that subtree when it revisits it from a wider root.

use vstd::prelude::*;
use vstd::string::StrSliceExecFns;
use vstd::string::StringExecFns;

verus! {

/// The characters that act as glob metacharacters when not escaped.
pub open spec fn is_meta_char(c: char) -> bool {
    c == '*' || c == '[' || c == ']' || c == '{' || c == '}' || c == '?' || c == '!'
}

/// A metacharacter occurrence is a break point only when the character just
/// before it is not the escape character.
pub open spec fn breaks_at(s: Seq<char>, i: int) -> bool {
    is_meta_char(s[i]) && (i == 0 || s[i - 1] != '\\')
}

/// Index of the first unescaped metacharacter at or after position `i`.
pub open spec fn first_break_from(s: Seq<char>, i: int) -> Option<int>
    decreases s.len() - i,
{
    if i < 0 || i >= s.len() {
        None
    } else if breaks_at(s, i) {
        Some(i)
    } else {
        first_break_from(s, i + 1)
    }
}

/// Index of the last path separator strictly before position `b`.
pub open spec fn last_sep_before(s: Seq<char>, b: int) -> Option<int>
    decreases b,
{
    if b <= 0 {
        None
    } else if s[b - 1] == '/' {
        Some(b - 1)
    } else {
        last_sep_before(s, b - 1)
    }
}

/// A character position survives unescaping unless it holds an escape
/// character that immediately precedes a metacharacter.
pub open spec fn kept_at(s: Seq<char>, i: int) -> bool {
    !(s[i] == '\\' && i + 1 < s.len() && is_meta_char(s[i + 1]))
}

/// The first `k` characters of `s` with every escape character that precedes
/// a metacharacter removed.
pub open spec fn unescape_upto(s: Seq<char>, k: int) -> Seq<char>
    decreases k,
{
    if k <= 0 {
        Seq::empty()
    } else {
        unescape_upto(s, k - 1) + if kept_at(s, k - 1) {
            seq![s[k - 1]]
        } else {
            Seq::<char>::empty()
        }
    }
}

/// `s` with every escape character that precedes a metacharacter removed.
pub open spec fn unescape(s: Seq<char>) -> Seq<char> {
    unescape_upto(s, s.len() as int)
}

/// A pattern remainder that matches every path below a root: `**` or `**/*`.
pub open spec fn is_match_all(s: Seq<char>) -> bool {
    s =~= seq!['*', '*'] || s =~= seq!['*', '*', '/', '*']
}

/// The four patterns whose root is the filesystem root and which cover it
/// entirely: `**`, `**/*`, `/**`, `/**/*`.
pub open spec fn is_trivial_root_pattern(s: Seq<char>) -> bool {
    ||| s =~= seq!['*', '*']
    ||| s =~= seq!['*', '*', '/', '*']
    ||| s =~= seq!['/', '*', '*']
    ||| s =~= seq!['/', '*', '*', '/', '*']
}

/// The root derived from a pattern, and whether that root is fully covered.
///
/// An empty pattern, a pattern that does not start with a separator, and a
/// pattern whose first unescaped metacharacter comes before any separator
/// have no derivable root.
pub open spec fn derived_root(s: Seq<char>) -> Option<(Seq<char>, bool)> {
    if s.len() == 0 {
        None
    } else if is_trivial_root_pattern(s) {
        Some((seq!['/'], true))
    } else if s[0] != '/' {
        None
    } else {
        match first_break_from(s, 0) {
            None => Some((unescape(s), false)),
            Some(b) => match last_sep_before(s, b) {
                None => None,
                Some(j) => Some((unescape(s.take(j + 1)), is_match_all(s.skip(j + 1)))),
            },
        }
    }
}

/// Whether `c` is a glob metacharacter.
pub fn is_meta(c: char) -> (r: bool)
    ensures
        r == is_meta_char(c),
{
    c == '*' || c == '[' || c == ']' || c == '{' || c == '}' || c == '?' || c == '!'
}

/// The characters of `s`, in order.
pub fn chars_of(s: &str) -> (r: Vec<char>)
    ensures
        r@ == s@,
{
    let n = s.unicode_len();
    let mut r: Vec<char> = Vec::new();
    let mut i: usize = 0;
    while i < n
        invariant
            i <= n,
            n == s@.len(),
            r@ == s@.take(i as int),
        decreases n - i,
    {
        r.push(s.get_char(i));
        i = i + 1;
        proof {
            assert(r@ =~= s@.take(i as int));
        }
    }
    proof {
        assert(r@ =~= s@);
    }
    r
}

/// Relies on std's `String: FromIterator<char>`: collecting characters yields
/// the string made of exactly those characters in order.
#[verifier::external_body]
fn chars_to_string(v: &Vec<char>) -> (r: String)
    ensures
        r@ == v@,
{
    v.iter().collect()
}

/// Whether the whole pattern is `**` or `**/*`, the two remainders that make
/// a derived root fully covered.
pub fn is_recursive_match_all(input: &str) -> (r: bool)
    ensures
        r == is_match_all(input@),
{
    let v = chars_of(input);
    is_match_all_from(&v, 0)
}

/// Whether the characters of `v` from position `from` on are `**` or `**/*`.
fn is_match_all_from(v: &Vec<char>, from: usize) -> (r: bool)
    requires
        from <= v@.len(),
    ensures
        r == is_match_all(v@.skip(from as int)),
{
    let n = v.len();
    let r = if n - from == 2 {
        v[from] == '*' && v[from + 1] == '*'
    } else if n - from == 4 {
        v[from] == '*' && v[from + 1] == '*' && v[from + 2] == '/' && v[from + 3] == '*'
    } else {
        false
    };
    proof {
        let tail = v@.skip(from as int);
        if r {
            if n - from == 2 {
                assert(tail =~= seq!['*', '*']);
            } else {
                assert(tail =~= seq!['*', '*', '/', '*']);
            }
        } else {
            assert(!is_match_all(tail)) by {
                if tail =~= seq!['*', '*'] {
                    assert(tail.len() == 2);
                }
                if tail =~= seq!['*', '*', '/', '*'] {
                    assert(tail.len() == 4);
                }
            }
        }
    }
    r
}

/// Whether the pattern is one of the four that cover the whole filesystem.
fn is_trivial_pattern(v: &Vec<char>) -> (r: bool)
    ensures
        r == is_trivial_root_pattern(v@),
{
    let n = v.len();
    let r = if n == 2 {
        v[0] == '*' && v[1] == '*'
    } else if n == 3 {
        v[0] == '/' && v[1] == '*' && v[2] == '*'
    } else if n == 4 {
        v[0] == '*' && v[1] == '*' && v[2] == '/' && v[3] == '*'
    } else if n == 5 {
        v[0] == '/' && v[1] == '*' && v[2] == '*' && v[3] == '/' && v[4] == '*'
    } else {
        false
    };
    proof {
        if r {
            if n == 2 {
                assert(v@ =~= seq!['*', '*']);
            } else if n == 3 {
                assert(v@ =~= seq!['/', '*', '*']);
            } else if n == 4 {
                assert(v@ =~= seq!['*', '*', '/', '*']);
            } else {
                assert(v@ =~= seq!['/', '*', '*', '/', '*']);
            }
        } else {
            assert(!is_trivial_root_pattern(v@)) by {
                if v@ =~= seq!['*', '*'] {
                    assert(v@.len() == 2);
                }
                if v@ =~= seq!['/', '*', '*'] {
                    assert(v@.len() == 3);
                }
                if v@ =~= seq!['*', '*', '/', '*'] {
                    assert(v@.len() == 4);
                }
                if v@ =~= seq!['/', '*', '*', '/', '*'] {
                    assert(v@.len() == 5);
                }
            }
        }
    }
    r
}

proof fn lemma_first_break_is(s: Seq<char>, i: int, b: int)
    requires
        0 <= i <= b < s.len(),
        breaks_at(s, b),
        forall|j: int| i <= j < b ==> !breaks_at(s, j),
    ensures
        first_break_from(s, i) == Some(b),
    decreases b - i,
{
    if i < b {
        lemma_first_break_is(s, i + 1, b);
    }
}

proof fn lemma_first_break_none(s: Seq<char>, i: int)
    requires
        0 <= i,
        forall|j: int| i <= j < s.len() ==> !breaks_at(s, j),
    ensures
        first_break_from(s, i) is None,
    decreases s.len() - i,
{
    if i < s.len() {
        lemma_first_break_none(s, i + 1);
    }
}

proof fn lemma_last_sep_is(s: Seq<char>, b: int, j: int)
    requires
        0 <= j < b <= s.len(),
        s[j] == '/',
        forall|m: int| j < m < b ==> s[m] != '/',
    ensures
        last_sep_before(s, b) == Some(j),
    decreases b - j,
{
    if j < b - 1 {
        lemma_last_sep_is(s, b - 1, j);
    }
}

proof fn lemma_last_sep_none(s: Seq<char>, b: int)
    requires
        b <= s.len(),
        forall|m: int| 0 <= m < b ==> s[m] != '/',
    ensures
        last_sep_before(s, b) is None,
    decreases b,
{
    if b > 0 {
        lemma_last_sep_none(s, b - 1);
    }
}

/// The root derived from a glob pattern, with its fully-covered flag, or
/// `None` when the pattern yields no root.
pub fn root_parser(input: &str) -> (r: Option<(String, bool)>)
    ensures
        r is Some <==> derived_root(input@) is Some,
        r matches Some(p) ==> derived_root(input@) == Some((p.0@, p.1)),
{
    let v = chars_of(input);
    let n = v.len();

    if n == 0 {
        return None;
    }
    if is_trivial_pattern(&v) {
        let root = chars_to_string(&vec!['/']);
        proof {
            assert(root@ =~= seq!['/']);
        }
        return Some((root, true));
    }
    if v[0] != '/' {
        return None;
    }

    // Scan for the first unescaped metacharacter and the last separator
    // before it.
    let mut i: usize = 0;
    let mut last_sep: Option<usize> = None;
    let mut brk: Option<usize> = None;
    while i < n && brk.is_none()
        invariant
            i <= n,
            n == v@.len(),
            brk matches Some(b) ==> b == i && i < n && breaks_at(v@, i as int),
            forall|j: int| 0 <= j < i ==> !breaks_at(v@, j),
            match last_sep {
                Some(j) => j < i && v@[j as int] == '/' && forall|m: int|
                    j < m < i ==> v@[m] != '/',
                None => forall|m: int| 0 <= m < i ==> v@[m] != '/',
            },
        decreases n - i, if brk is None { 1int } else { 0int },
    {
        let c = v[i];
        if is_meta(c) && (i == 0 || v[i - 1] != '\\') {
            brk = Some(i);
        } else {
            if c == '/' {
                last_sep = Some(i);
            }
            i = i + 1;
        }
    }

    // The prefix that the root is read from, and the flag.
    let cut: usize;
    let full: bool;
    match brk {
        None => {
            proof {
                lemma_first_break_none(v@, 0);
            }
            cut = n;
            full = false;
        },
        Some(b) => {
            proof {
                lemma_first_break_is(v@, 0, b as int);
            }
            match last_sep {
                None => {
                    proof {
                        lemma_last_sep_none(v@, b as int);
                    }
                    return None;
                },
                Some(j) => {
                    proof {
                        lemma_last_sep_is(v@, b as int, j as int);
                    }
                    cut = j + 1;
                    full = is_match_all_from(&v, j + 1);
                },
            }
        },
    }

    // Build the unescaped root from the prefix.
    let prefix_view = Ghost(v@.take(cut as int));
    let mut out: Vec<char> = Vec::new();
    let mut k: usize = 0;
    while k < cut
        invariant
            k <= cut <= n,
            n == v@.len(),
            prefix_view@ == v@.take(cut as int),
            out@ == unescape_upto(prefix_view@, k as int),
        decreases cut - k,
    {
        let c = v[k];
        if !(c == '\\' && k + 1 < cut && is_meta(v[k + 1])) {
            out.push(c);
            proof {
                assert(kept_at(prefix_view@, k as int));
            }
        } else {
            proof {
                assert(!kept_at(prefix_view@, k as int));
            }
        }
        k = k + 1;
        proof {
            assert(out@ =~= unescape_upto(prefix_view@, k as int));
        }
    }

    let root = chars_to_string(&out);
    proof {
        if brk is None {
            assert(v@.take(cut as int) =~= v@);
        }
    }
    Some((root, full))
}

/// The derived root is the unescape of a pattern prefix that holds no
/// unescaped metacharacter, so the pattern matches that prefix only
/// literally; and the root is fully covered exactly when the pattern's
/// remainder after that prefix is `**` or `**/*`.  The four whole-filesystem
/// patterns are left out: their root `/` is not text taken from the pattern.
pub proof fn lemma_root_is_literal_prefix(s: Seq<char>)
    requires
        derived_root(s) is Some,
        !is_trivial_root_pattern(s),
    ensures
        exists|cut: int|
            {
                &&& 0 <= cut <= s.len()
                &&& derived_root(s) == Some(
                    (unescape(s.take(cut)), is_match_all(s.skip(cut))),
                )
                &&& forall|i: int| 0 <= i < cut ==> !breaks_at(s, i)
            },
{
    match first_break_from(s, 0) {
        None => {
            lemma_first_break_bound(s, 0);
            assert(s.take(s.len() as int) =~= s);
            assert(s.skip(s.len() as int) =~= Seq::<char>::empty());
            assert(!is_match_all(s.skip(s.len() as int)));
            assert(derived_root(s) == Some(
                (unescape(s.take(s.len() as int)), is_match_all(s.skip(s.len() as int))),
            ));
        },
        Some(b) => {
            lemma_first_break_bound(s, 0);
            match last_sep_before(s, b) {
                None => {
                    assert(false);
                },
                Some(j) => {
                    lemma_last_sep_bound(s, b);
                    let cut = j + 1;
                    assert(0 <= cut <= s.len());
                    assert(forall|i: int| 0 <= i < cut ==> !breaks_at(s, i));
                },
            }
        },
    }
}

/// Whatever `first_break_from` finds is a break, and nothing before it is.
proof fn lemma_first_break_bound(s: Seq<char>, i: int)
    requires
        0 <= i,
    ensures
        match first_break_from(s, i) {
            Some(b) => i <= b < s.len() && breaks_at(s, b) && forall|j: int|
                i <= j < b ==> !breaks_at(s, j),
            None => forall|j: int| i <= j < s.len() ==> !breaks_at(s, j),
        },
    decreases s.len() - i,
{
    if i < s.len() && !breaks_at(s, i) {
        lemma_first_break_bound(s, i + 1);
    }
}

/// Whatever `last_sep_before` finds is a separator, and nothing between it
/// and the break is.
proof fn lemma_last_sep_bound(s: Seq<char>, b: int)
    requires
        b <= s.len(),
    ensures
        match last_sep_before(s, b) {
            Some(j) => 0 <= j < b && s[j] == '/' && forall|m: int| j < m < b ==> s[m] != '/',
            None => forall|m: int| 0 <= m < b ==> s[m] != '/',
        },
    decreases b,
{
    if b > 0 && s[b - 1] != '/' {
        lemma_last_sep_bound(s, b - 1);
    }
}

} // verus!
