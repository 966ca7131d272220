//! Turns an arbitrary string into a filesystem-safe path component.
//!
//! The rules, applied in order: trim surrounding white space, replace every
//! character outside `[A-Za-z0-9._-]` with `_`, strip surrounding `.`
//! characters, substitute `UNKNOWN` for an empty or all-underscore result,
//! prefix `_` to a reserved device name, and truncate to 80 characters.

use crate::strutil::chars_to_string;
use vstd::prelude::*;

verus! {

/// Characters kept as they are: ASCII digits, ASCII letters, `.`, `_`, `-`.
pub open spec fn spec_is_safe(c: char) -> bool {
    let u = c as u32;
    (48 <= u && u <= 57)  // digits
    || (65 <= u && u <= 90)  // upper-case letters
    || (97 <= u && u <= 122)  // lower-case letters
    || u == 46  // '.'
    || u == 95  // '_'
    || u == 45  // '-'
}

/// The characters with the Unicode `White_Space` property.
pub open spec fn spec_is_ws(c: char) -> bool {
    let u = c as u32;
    (9 <= u && u <= 13)
    || u == 32
    || u == 0x85
    || u == 0xA0
    || u == 0x1680
    || (0x2000 <= u && u <= 0x200A)
    || u == 0x2028
    || u == 0x2029
    || u == 0x202F
    || u == 0x205F
    || u == 0x3000
}

pub open spec fn trim_ws_front(s: Seq<char>) -> Seq<char>
    decreases s.len(),
{
    if s.len() > 0 && spec_is_ws(s[0]) {
        trim_ws_front(s.drop_first())
    } else {
        s
    }
}

pub open spec fn trim_ws_back(s: Seq<char>) -> Seq<char>
    decreases s.len(),
{
    if s.len() > 0 && spec_is_ws(s.last()) {
        trim_ws_back(s.drop_last())
    } else {
        s
    }
}

/// The input with leading and trailing white space removed.
pub open spec fn spec_trim_ws(s: Seq<char>) -> Seq<char> {
    trim_ws_back(trim_ws_front(s))
}

pub open spec fn trim_dot_front(s: Seq<char>) -> Seq<char>
    decreases s.len(),
{
    if s.len() > 0 && s[0] == '.' {
        trim_dot_front(s.drop_first())
    } else {
        s
    }
}

pub open spec fn trim_dot_back(s: Seq<char>) -> Seq<char>
    decreases s.len(),
{
    if s.len() > 0 && s.last() == '.' {
        trim_dot_back(s.drop_last())
    } else {
        s
    }
}

/// The input with leading and trailing `.` characters removed.
pub open spec fn spec_trim_dots(s: Seq<char>) -> Seq<char> {
    trim_dot_back(trim_dot_front(s))
}

/// An unsafe character becomes `_`; a safe one is kept.
pub open spec fn replace_unsafe(c: char) -> char {
    if spec_is_safe(c) {
        c
    } else {
        '_'
    }
}

pub open spec fn spec_replace(s: Seq<char>) -> Seq<char> {
    Seq::new(s.len(), |i: int| replace_unsafe(s[i]))
}

pub open spec fn all_underscores(s: Seq<char>) -> bool {
    forall|i: int| 0 <= i < s.len() ==> s[i] == '_'
}

/// The sentinel returned for inputs that sanitize to nothing.
pub open spec fn unknown_seq() -> Seq<char> {
    seq!['U', 'N', 'K', 'N', 'O', 'W', 'N']
}

/// Case-insensitive match of one character against an ASCII letter.
pub open spec fn ci_eq(c: char, upper: char, lower: char) -> bool {
    c == upper || c == lower
}

/// Case-insensitive equality with one of the reserved device names
/// `CON`, `PRN`, `AUX`, `NUL`, `COM1`-`COM4`, `LPT1`-`LPT3`.
pub open spec fn spec_is_reserved(s: Seq<char>) -> bool {
    ||| (s.len() == 3 && {
        ||| (ci_eq(s[0], 'C', 'c') && ci_eq(s[1], 'O', 'o') && ci_eq(s[2], 'N', 'n'))
        ||| (ci_eq(s[0], 'P', 'p') && ci_eq(s[1], 'R', 'r') && ci_eq(s[2], 'N', 'n'))
        ||| (ci_eq(s[0], 'A', 'a') && ci_eq(s[1], 'U', 'u') && ci_eq(s[2], 'X', 'x'))
        ||| (ci_eq(s[0], 'N', 'n') && ci_eq(s[1], 'U', 'u') && ci_eq(s[2], 'L', 'l'))
    })
    ||| (s.len() == 4 && {
        ||| (ci_eq(s[0], 'C', 'c') && ci_eq(s[1], 'O', 'o') && ci_eq(s[2], 'M', 'm')
            && (s[3] == '1' || s[3] == '2' || s[3] == '3' || s[3] == '4'))
        ||| (ci_eq(s[0], 'L', 'l') && ci_eq(s[1], 'P', 'p') && ci_eq(s[2], 'T', 't')
            && (s[3] == '1' || s[3] == '2' || s[3] == '3'))
    })
}

/// The sanitized form of a string, as a sequence of characters.
pub open spec fn spec_sanitize(s: Seq<char>) -> Seq<char> {
    let t = spec_trim_ws(s);
    if t.len() == 0 {
        unknown_seq()
    } else {
        let d = spec_trim_dots(spec_replace(t));
        let u = if d.len() == 0 || all_underscores(d) {
            unknown_seq()
        } else {
            d
        };
        let w = if spec_is_reserved(u) {
            seq!['_'] + u
        } else {
            u
        };
        if w.len() > 80 {
            w.subrange(0, 80)
        } else {
            w
        }
    }
}

fn is_ws_char(c: char) -> (r: bool)
    ensures
        r == spec_is_ws(c),
{
    let u = c as u32;
    (9 <= u && u <= 13)
    || u == 32
    || u == 0x85
    || u == 0xA0
    || u == 0x1680
    || (0x2000 <= u && u <= 0x200A)
    || u == 0x2028
    || u == 0x2029
    || u == 0x202F
    || u == 0x205F
    || u == 0x3000
}

fn is_safe_char(c: char) -> (r: bool)
    ensures
        r == spec_is_safe(c),
{
    let u = c as u32;
    (48 <= u && u <= 57)
    || (65 <= u && u <= 90)
    || (97 <= u && u <= 122)
    || u == 46
    || u == 95
    || u == 45
}

fn is_reserved(v: &Vec<char>) -> (r: bool)
    ensures
        r == spec_is_reserved(v@),
{
    if v.len() == 3 {
        let c0 = v[0];
        let c1 = v[1];
        let c2 = v[2];
        ((c0 == 'C' || c0 == 'c') && (c1 == 'O' || c1 == 'o') && (c2 == 'N' || c2 == 'n'))
        || ((c0 == 'P' || c0 == 'p') && (c1 == 'R' || c1 == 'r') && (c2 == 'N' || c2 == 'n'))
        || ((c0 == 'A' || c0 == 'a') && (c1 == 'U' || c1 == 'u') && (c2 == 'X' || c2 == 'x'))
        || ((c0 == 'N' || c0 == 'n') && (c1 == 'U' || c1 == 'u') && (c2 == 'L' || c2 == 'l'))
    } else if v.len() == 4 {
        let c0 = v[0];
        let c1 = v[1];
        let c2 = v[2];
        let c3 = v[3];
        (((c0 == 'C' || c0 == 'c') && (c1 == 'O' || c1 == 'o') && (c2 == 'M' || c2 == 'm')
            && (c3 == '1' || c3 == '2' || c3 == '3' || c3 == '4'))
        || ((c0 == 'L' || c0 == 'l') && (c1 == 'P' || c1 == 'p') && (c2 == 'T' || c2 == 't')
            && (c3 == '1' || c3 == '2' || c3 == '3')))
    } else {
        false
    }
}

fn unknown_chars() -> (v: Vec<char>)
    ensures
        v@ == unknown_seq(),
{
    let mut v: Vec<char> = Vec::new();
    v.push('U');
    v.push('N');
    v.push('K');
    v.push('N');
    v.push('O');
    v.push('W');
    v.push('N');
    proof {
        assert(v@ =~= unknown_seq());
    }
    v
}

proof fn lemma_trim_ws_front_exact(s: Seq<char>, k: int)
    requires
        0 <= k <= s.len(),
        forall|j: int| 0 <= j < k ==> spec_is_ws(s[j]),
        k < s.len() ==> !spec_is_ws(s[k]),
    ensures
        trim_ws_front(s) == s.subrange(k, s.len() as int),
    decreases k,
{
    if k == 0 {
        assert(trim_ws_front(s) == s);
        assert(s.subrange(0, s.len() as int) =~= s);
    } else {
        assert(spec_is_ws(s[0]));
        lemma_trim_ws_front_exact(s.drop_first(), k - 1);
        assert(s.drop_first().subrange(k - 1, s.drop_first().len() as int) =~= s.subrange(
            k,
            s.len() as int,
        ));
    }
}

proof fn lemma_trim_ws_back_exact(s: Seq<char>, k: int)
    requires
        0 <= k <= s.len(),
        forall|j: int| k <= j < s.len() ==> spec_is_ws(s[j]),
        k > 0 ==> !spec_is_ws(s[k - 1]),
    ensures
        trim_ws_back(s) == s.subrange(0, k),
    decreases s.len(),
{
    if k == s.len() {
        assert(trim_ws_back(s) == s);
        assert(s.subrange(0, k) =~= s);
    } else {
        assert(spec_is_ws(s.last()));
        lemma_trim_ws_back_exact(s.drop_last(), k);
        assert(s.drop_last().subrange(0, k) =~= s.subrange(0, k));
    }
}

proof fn lemma_trim_dot_front_exact(s: Seq<char>, k: int)
    requires
        0 <= k <= s.len(),
        forall|j: int| 0 <= j < k ==> s[j] == '.',
        k < s.len() ==> s[k] != '.',
    ensures
        trim_dot_front(s) == s.subrange(k, s.len() as int),
    decreases k,
{
    if k == 0 {
        assert(trim_dot_front(s) == s);
        assert(s.subrange(0, s.len() as int) =~= s);
    } else {
        assert(s[0] == '.');
        lemma_trim_dot_front_exact(s.drop_first(), k - 1);
        assert(s.drop_first().subrange(k - 1, s.drop_first().len() as int) =~= s.subrange(
            k,
            s.len() as int,
        ));
    }
}

proof fn lemma_trim_dot_back_exact(s: Seq<char>, k: int)
    requires
        0 <= k <= s.len(),
        forall|j: int| k <= j < s.len() ==> s[j] == '.',
        k > 0 ==> s[k - 1] != '.',
    ensures
        trim_dot_back(s) == s.subrange(0, k),
    decreases s.len(),
{
    if k == s.len() {
        assert(trim_dot_back(s) == s);
        assert(s.subrange(0, k) =~= s);
    } else {
        assert(s.last() == '.');
        lemma_trim_dot_back_exact(s.drop_last(), k);
        assert(s.drop_last().subrange(0, k) =~= s.subrange(0, k));
    }
}

/// What trimming dots leaves is a suffix whose first character is not a dot.
proof fn lemma_trim_dot_front_props(s: Seq<char>)
    ensures
        trim_dot_front(s).len() <= s.len(),
        trim_dot_front(s) == s.subrange(
            s.len() - trim_dot_front(s).len(),
            s.len() as int,
        ),
        trim_dot_front(s).len() > 0 ==> trim_dot_front(s)[0] != '.',
    decreases s.len(),
{
    if s.len() > 0 && s[0] == '.' {
        lemma_trim_dot_front_props(s.drop_first());
        let r = trim_dot_front(s);
        assert(s.drop_first().subrange(
            s.drop_first().len() - r.len(),
            s.drop_first().len() as int,
        ) =~= s.subrange(s.len() - r.len(), s.len() as int));
    } else {
        assert(s.subrange(0, s.len() as int) =~= s);
    }
}

/// What trimming trailing dots leaves is a prefix whose last character is not a dot.
proof fn lemma_trim_dot_back_props(s: Seq<char>)
    ensures
        trim_dot_back(s).len() <= s.len(),
        trim_dot_back(s) == s.subrange(0, trim_dot_back(s).len() as int),
        trim_dot_back(s).len() > 0 ==> trim_dot_back(s).last() != '.',
    decreases s.len(),
{
    if s.len() > 0 && s.last() == '.' {
        lemma_trim_dot_back_props(s.drop_last());
        let r = trim_dot_back(s);
        assert(s.drop_last().subrange(0, r.len() as int) =~= s.subrange(0, r.len() as int));
    } else {
        assert(s.subrange(0, s.len() as int) =~= s);
    }
}

/// Every character of the sanitized result is safe; the result is never
/// empty, never longer than 80 characters, and never starts with a dot.
/// When no truncation happens (the trimmed input fits in 80 characters),
/// it does not end with a dot either.
pub proof fn lemma_sanitize_props(s: Seq<char>)
    ensures
        0 < spec_sanitize(s).len() <= 80,
        forall|i: int| 0 <= i < spec_sanitize(s).len() ==> spec_is_safe(#[trigger] spec_sanitize(s)[i]),
        spec_sanitize(s)[0] != '.',
        spec_trim_ws(s).len() <= 80 ==> spec_sanitize(s).last() != '.',
{
    let t = spec_trim_ws(s);
    if t.len() == 0 {
        assert(spec_sanitize(s) == unknown_seq());
        assert(forall|i: int| 0 <= i < unknown_seq().len() ==> spec_is_safe(#[trigger] unknown_seq()[i]));
        assert(unknown_seq()[0] == 'U');
        assert(unknown_seq().last() == 'N');
    } else {
        let m = spec_replace(t);
        let d = spec_trim_dots(m);
        lemma_trim_dot_front_props(m);
        lemma_trim_dot_back_props(trim_dot_front(m));
        assert(forall|i: int| 0 <= i < m.len() ==> spec_is_safe(#[trigger] m[i]));
        assert(forall|i: int| 0 <= i < d.len() ==> spec_is_safe(#[trigger] d[i]));
        let u = if d.len() == 0 || all_underscores(d) {
            unknown_seq()
        } else {
            d
        };
        assert(forall|i: int| 0 <= i < unknown_seq().len() ==> spec_is_safe(#[trigger] unknown_seq()[i]));
        assert(u[0] != '.');
        assert(u.last() != '.');
        let w = if spec_is_reserved(u) {
            seq!['_'] + u
        } else {
            u
        };
        assert(w[0] != '.');
        assert(w.last() != '.');
        assert(forall|i: int| 0 <= i < w.len() ==> spec_is_safe(#[trigger] w[i]));
        if w.len() > 80 {
            assert(spec_sanitize(s) == w.subrange(0, 80));
            assert(t.len() > 80);
        } else {
            assert(spec_sanitize(s) == w);
        }
    }
}

/// Sanitizing is idempotent: a non-empty string of at most 80 safe
/// characters that does not start or end with a dot, is not all
/// underscores, and is not a reserved device name comes back unchanged.
pub proof fn lemma_sanitize_idempotent(t: Seq<char>)
    requires
        0 < t.len() <= 80,
        forall|i: int| 0 <= i < t.len() ==> spec_is_safe(#[trigger] t[i]),
        t[0] != '.',
        t.last() != '.',
        !all_underscores(t),
        !spec_is_reserved(t),
    ensures
        spec_sanitize(t) == t,
{
    assert(forall|i: int| 0 <= i < t.len() ==> !spec_is_ws(#[trigger] t[i]));
    lemma_trim_ws_front_exact(t, 0);
    lemma_trim_ws_back_exact(t, t.len() as int);
    assert(spec_trim_ws(t) == t);
    assert(spec_replace(t) =~= t);
    lemma_trim_dot_front_exact(t, 0);
    lemma_trim_dot_back_exact(t, t.len() as int);
    assert(spec_trim_dots(t) == t);
}

/// Turns an arbitrary string into a filesystem-safe path component:
/// surrounding white space is trimmed, every character outside
/// `[A-Za-z0-9._-]` becomes `_`, surrounding dots are stripped, an empty or
/// all-underscore result becomes `UNKNOWN`, a reserved device name gains a
/// leading `_`, and the result is cut to at most 80 characters.
pub fn sanitize_component(input: &str) -> (r: String)
    ensures
        r@ == spec_sanitize(input@),
{
    let n = input.unicode_len();
    let mut v: Vec<char> = Vec::new();
    let mut i: usize = 0;
    while i < n
        invariant
            i <= n,
            n == input@.len(),
            v@ =~= input@.take(i as int),
        decreases n - i,
    {
        v.push(input.get_char(i));
        i = i + 1;
    }
    proof {
        assert(v@ =~= input@);
    }
    // trim surrounding white space
    let mut a: usize = 0;
    loop
        invariant
            a <= v@.len(),
            forall|j: int| 0 <= j < a ==> spec_is_ws(v@[j]),
        ensures
            a <= v@.len(),
            forall|j: int| 0 <= j < a ==> spec_is_ws(v@[j]),
            a < v@.len() ==> !spec_is_ws(v@[a as int]),
        decreases v@.len() - a,
    {
        if a >= v.len() {
            break;
        }
        if !is_ws_char(v[a]) {
            break;
        }
        a = a + 1;
    }
    let mut b: usize = v.len();
    loop
        invariant
            a <= b <= v@.len(),
            forall|j: int| b <= j < v@.len() ==> spec_is_ws(v@[j]),
        ensures
            a <= b <= v@.len(),
            forall|j: int| b <= j < v@.len() ==> spec_is_ws(v@[j]),
            b > a ==> !spec_is_ws(v@[b - 1]),
        decreases b,
    {
        if b == a {
            break;
        }
        if !is_ws_char(v[b - 1]) {
            break;
        }
        b = b - 1;
    }
    let ghost trimmed = spec_trim_ws(input@);
    proof {
        lemma_trim_ws_front_exact(v@, a as int);
        let f = v@.subrange(a as int, v@.len() as int);
        lemma_trim_ws_back_exact(f, b - a);
        assert(f.subrange(0, b - a) =~= v@.subrange(a as int, b as int));
        assert(trimmed == v@.subrange(a as int, b as int));
    }
    if b == a {
        let u = unknown_chars();
        proof {
            assert(trimmed =~= Seq::<char>::empty());
            assert(trimmed.len() == 0);
        }
        return chars_to_string(&u);
    }
    // replace unsafe characters
    let mut m: Vec<char> = Vec::new();
    let mut i: usize = a;
    while i < b
        invariant
            a <= i <= b <= v@.len(),
            m@.len() == i - a,
            forall|j: int| 0 <= j < m@.len() ==> m@[j] == replace_unsafe(v@[a + j]),
        decreases b - i,
    {
        let c = v[i];
        if is_safe_char(c) {
            m.push(c);
        } else {
            m.push('_');
        }
        i = i + 1;
    }
    proof {
        assert(m@ =~= spec_replace(trimmed));
    }
    // strip surrounding dots
    let mut p: usize = 0;
    loop
        invariant
            p <= m@.len(),
            forall|j: int| 0 <= j < p ==> m@[j] == '.',
        ensures
            p <= m@.len(),
            forall|j: int| 0 <= j < p ==> m@[j] == '.',
            p < m@.len() ==> m@[p as int] != '.',
        decreases m@.len() - p,
    {
        if p >= m.len() {
            break;
        }
        if m[p] != '.' {
            break;
        }
        p = p + 1;
    }
    let mut q: usize = m.len();
    loop
        invariant
            p <= q <= m@.len(),
            forall|j: int| q <= j < m@.len() ==> m@[j] == '.',
        ensures
            p <= q <= m@.len(),
            forall|j: int| q <= j < m@.len() ==> m@[j] == '.',
            q > p ==> m@[q - 1] != '.',
        decreases q,
    {
        if q == p {
            break;
        }
        if m[q - 1] != '.' {
            break;
        }
        q = q - 1;
    }
    let ghost dotless = spec_trim_dots(spec_replace(trimmed));
    proof {
        lemma_trim_dot_front_exact(m@, p as int);
        let f = m@.subrange(p as int, m@.len() as int);
        lemma_trim_dot_back_exact(f, q - p);
        assert(f.subrange(0, q - p) =~= m@.subrange(p as int, q as int));
        assert(dotless == m@.subrange(p as int, q as int));
    }
    let mut d: Vec<char> = Vec::new();
    let mut i: usize = p;
    while i < q
        invariant
            p <= i <= q <= m@.len(),
            d@ =~= m@.subrange(p as int, i as int),
        decreases q - i,
    {
        d.push(m[i]);
        i = i + 1;
    }
    proof {
        assert(d@ == dotless);
    }
    // empty or all-underscore results become the sentinel
    let mut only_underscores = true;
    let mut i: usize = 0;
    while i < d.len()
        invariant
            i <= d@.len(),
            only_underscores == (forall|j: int| 0 <= j < i ==> d@[j] == '_'),
        decreases d@.len() - i,
    {
        if d[i] != '_' {
            only_underscores = false;
        }
        i = i + 1;
    }
    proof {
        assert(only_underscores == all_underscores(d@));
    }
    let mut u: Vec<char> = if d.len() == 0 || only_underscores {
        unknown_chars()
    } else {
        d
    };
    // reserved device names gain a leading underscore
    if is_reserved(&u) {
        let ghost before = u@;
        u.insert(0, '_');
        proof {
            assert(u@ =~= seq!['_'] + before);
        }
    }
    // truncate to 80 characters
    if u.len() > 80 {
        u.truncate(80);
    }
    let r = chars_to_string(&u);
    proof {
        assert(r@ == spec_sanitize(input@));
    }
    r
}

} // verus!
