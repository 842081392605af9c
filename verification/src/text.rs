//! Character classes, the ordering of strings, and small string utilities
//! shared by the rest of the library.

use vstd::prelude::*;

verus! {

/// ASCII letter, as `char::is_ascii_alphabetic` classifies it.
pub open spec fn is_ascii_alpha(c: char) -> bool {
    ('a' <= c && c <= 'z') || ('A' <= c && c <= 'Z')
}

/// ASCII decimal digit.
pub open spec fn is_ascii_digit(c: char) -> bool {
    '0' <= c && c <= '9'
}

/// ASCII letter or digit, as `char::is_ascii_alphanumeric` classifies it.
pub open spec fn is_ascii_alnum(c: char) -> bool {
    is_ascii_alpha(c) || is_ascii_digit(c)
}

/// The Unicode `White_Space` property, which `char::is_whitespace` tests.
pub open spec fn is_white_space(c: char) -> bool {
    ||| ('\u{9}' <= c && c <= '\u{d}')
    ||| c == ' '
    ||| c == '\u{85}'
    ||| c == '\u{a0}'
    ||| c == '\u{1680}'
    ||| ('\u{2000}' <= c && c <= '\u{200a}')
    ||| c == '\u{2028}'
    ||| c == '\u{2029}'
    ||| c == '\u{202f}'
    ||| c == '\u{205f}'
    ||| c == '\u{3000}'
}

pub fn is_ascii_alpha_char(c: char) -> (r: bool)
    ensures
        r == is_ascii_alpha(c),
{
    ('a' <= c && c <= 'z') || ('A' <= c && c <= 'Z')
}

pub fn is_ascii_alnum_char(c: char) -> (r: bool)
    ensures
        r == is_ascii_alnum(c),
{
    is_ascii_alpha_char(c) || ('0' <= c && c <= '9')
}

pub fn is_white_space_char(c: char) -> (r: bool)
    ensures
        r == is_white_space(c),
{
    ('\u{9}' <= c && c <= '\u{d}') || c == ' ' || c == '\u{85}' || c == '\u{a0}' || c
        == '\u{1680}' || ('\u{2000}' <= c && c <= '\u{200a}') || c == '\u{2028}' || c
        == '\u{2029}' || c == '\u{202f}' || c == '\u{205f}' || c == '\u{3000}'
}

/// Strict lexicographic order by code point. For strings this is the order
/// of `str`'s `Ord`, since UTF-8 byte order follows code-point order.
pub open spec fn seq_lt(a: Seq<char>, b: Seq<char>) -> bool
    decreases a.len(),
{
    if b.len() == 0 {
        false
    } else if a.len() == 0 {
        true
    } else if a[0] < b[0] {
        true
    } else if a[0] == b[0] {
        seq_lt(a.drop_first(), b.drop_first())
    } else {
        false
    }
}

pub proof fn lemma_lt_irreflexive(a: Seq<char>)
    ensures
        !seq_lt(a, a),
    decreases a.len(),
{
    if a.len() > 0 {
        lemma_lt_irreflexive(a.drop_first());
    }
}

pub proof fn lemma_lt_transitive(a: Seq<char>, b: Seq<char>, c: Seq<char>)
    requires
        seq_lt(a, b),
        seq_lt(b, c),
    ensures
        seq_lt(a, c),
    decreases a.len(),
{
    if a.len() > 0 && b.len() > 0 && c.len() > 0 && a[0] == b[0] && b[0] == c[0] {
        lemma_lt_transitive(a.drop_first(), b.drop_first(), c.drop_first());
    }
}

pub proof fn lemma_lt_total(a: Seq<char>, b: Seq<char>)
    ensures
        a == b || seq_lt(a, b) || seq_lt(b, a),
    decreases a.len(),
{
    if a.len() > 0 && b.len() > 0 && a[0] == b[0] {
        lemma_lt_total(a.drop_first(), b.drop_first());
        if a.drop_first() == b.drop_first() {
            assert(a =~= seq![a[0]] + a.drop_first());
            assert(b =~= seq![b[0]] + b.drop_first());
        }
    } else if a.len() == 0 && b.len() == 0 {
        assert(a =~= b);
    }
}

pub proof fn lemma_lt_asymmetric(a: Seq<char>, b: Seq<char>)
    requires
        seq_lt(a, b),
    ensures
        !seq_lt(b, a),
{
    if seq_lt(b, a) {
        lemma_lt_transitive(a, b, a);
        lemma_lt_irreflexive(a);
    }
}

/// Result of comparing two strings.
#[derive(Debug, Clone, Copy, PartialEq, Eq)]
pub enum Order {
    Less,
    Equal,
    Greater,
}

/// Three-way comparison in the order of `str`'s `Ord`.
pub fn compare_text(a: &str, b: &str) -> (r: Order)
    ensures
        r == Order::Less <==> seq_lt(a@, b@),
        r == Order::Equal <==> a@ == b@,
        r == Order::Greater <==> seq_lt(b@, a@),
{
    let la = a.unicode_len();
    let lb = b.unicode_len();
    let mut i: usize = 0;
    proof {
        assert(a@.skip(0) =~= a@);
        assert(b@.skip(0) =~= b@);
    }
    while i < la && i < lb
        invariant
            la == a@.len(),
            lb == b@.len(),
            i <= la,
            i <= lb,
            a@.subrange(0, i as int) == b@.subrange(0, i as int),
            seq_lt(a@, b@) == seq_lt(a@.skip(i as int), b@.skip(i as int)),
            seq_lt(b@, a@) == seq_lt(b@.skip(i as int), a@.skip(i as int)),
        decreases la - i,
    {
        let ca = a.get_char(i);
        let cb = b.get_char(i);
        let ghost sa = a@.skip(i as int);
        let ghost sb = b@.skip(i as int);
        assert(sa[0] == ca && sb[0] == cb);
        if ca < cb {
            proof {
                lemma_lt_asymmetric(sa, sb);
                assert(a@ != b@) by {
                    assert(a@[i as int] != b@[i as int]);
                }
            }
            return Order::Less;
        } else if cb < ca {
            proof {
                lemma_lt_asymmetric(sb, sa);
                assert(a@ != b@) by {
                    assert(a@[i as int] != b@[i as int]);
                }
            }
            return Order::Greater;
        }
        assert(ca == cb);
        assert(sa.drop_first() =~= a@.skip(i + 1));
        assert(sb.drop_first() =~= b@.skip(i + 1));
        assert(a@.subrange(0, i + 1) =~= a@.subrange(0, i as int).push(ca));
        assert(b@.subrange(0, i + 1) =~= b@.subrange(0, i as int).push(cb));
        i = i + 1;
    }
    if la == lb {
        assert(a@ =~= a@.subrange(0, i as int));
        assert(b@ =~= b@.subrange(0, i as int));
        proof {
            lemma_lt_irreflexive(a@);
        }
        Order::Equal
    } else if la < lb {
        assert(a@.skip(i as int).len() == 0);
        assert(a@ != b@);
        proof {
            lemma_lt_asymmetric(a@.skip(i as int), b@.skip(i as int));
        }
        Order::Less
    } else {
        assert(b@.skip(i as int).len() == 0);
        assert(a@ != b@);
        proof {
            lemma_lt_asymmetric(b@.skip(i as int), a@.skip(i as int));
        }
        Order::Greater
    }
}

/// Whether two strings hold the same characters.
pub fn text_eq(a: &str, b: &str) -> (r: bool)
    ensures
        r == (a@ == b@),
{
    match compare_text(a, b) {
        Order::Equal => true,
        _ => false,
    }
}

/// Appends one character to a string (`String::push`).
#[verifier::external_body]
pub fn push_char(s: &mut String, c: char)
    ensures
        final(s)@ == old(s)@.push(c),
{
    s.push(c);
}

/// Appends a string slice.
pub fn push_str(s: &mut String, t: &str)
    ensures
        final(s)@ == old(s)@ + t@,
{
    s.append(t);
}

/// A fresh string holding the characters of `t`.
pub fn owned(t: &str) -> (r: String)
    ensures
        r@ == t@,
{
    t.to_owned()
}

pub open spec fn starts_with(s: Seq<char>, p: Seq<char>) -> bool {
    p.len() <= s.len() && s.subrange(0, p.len() as int) == p
}

pub open spec fn ends_with(s: Seq<char>, p: Seq<char>) -> bool {
    p.len() <= s.len() && s.subrange(s.len() - p.len(), s.len() as int) == p
}

/// `str::starts_with` on a string prefix.
pub fn has_prefix(s: &str, p: &str) -> (r: bool)
    ensures
        r == starts_with(s@, p@),
{
    let ls = s.unicode_len();
    let lp = p.unicode_len();
    if lp > ls {
        return false;
    }
    let head = s.substring_char(0, lp);
    text_eq(head, p)
}

/// `str::ends_with` on a string suffix.
pub fn has_suffix(s: &str, p: &str) -> (r: bool)
    ensures
        r == ends_with(s@, p@),
{
    let ls = s.unicode_len();
    let lp = p.unicode_len();
    if lp > ls {
        return false;
    }
    let tail = s.substring_char(ls - lp, ls);
    text_eq(tail, p)
}

/// Whether `c` occurs in `s`.
pub fn has_char(s: &str, c: char) -> (r: bool)
    ensures
        r == s@.contains(c),
{
    let n = s.unicode_len();
    let mut i: usize = 0;
    while i < n
        invariant
            n == s@.len(),
            i <= n,
            forall|j: int| 0 <= j < i ==> s@[j] != c,
        decreases n - i,
    {
        if s.get_char(i) == c {
            return true;
        }
        i = i + 1;
    }
    false
}

/// Number of leading characters of `s` for which `p` holds.
pub open spec fn leading_count(s: Seq<char>, p: spec_fn(char) -> bool) -> nat
    decreases s.len(),
{
    if s.len() > 0 && p(s[0]) {
        1 + leading_count(s.drop_first(), p)
    } else {
        0
    }
}

/// Number of trailing characters of `s` for which `p` holds.
pub open spec fn trailing_count(s: Seq<char>, p: spec_fn(char) -> bool) -> nat
    decreases s.len(),
{
    if s.len() > 0 && p(s.last()) {
        1 + trailing_count(s.drop_last(), p)
    } else {
        0
    }
}

/// `s` with the leading and trailing characters matching `p` removed, as
/// `str::trim_matches` does.
pub open spec fn strip_both(s: Seq<char>, p: spec_fn(char) -> bool) -> Seq<char> {
    let front = leading_count(s, p);
    if front == s.len() {
        Seq::empty()
    } else {
        s.subrange(front as int, s.len() - trailing_count(s, p))
    }
}

/// `s` without its trailing characters matching `p` (`str::trim_end_matches`).
pub open spec fn strip_end(s: Seq<char>, p: spec_fn(char) -> bool) -> Seq<char> {
    s.subrange(0, s.len() - trailing_count(s, p))
}

pub open spec fn ws() -> spec_fn(char) -> bool {
    |c: char| is_white_space(c)
}

pub open spec fn slash() -> spec_fn(char) -> bool {
    |c: char| c == '/'
}

/// `str::trim`: no leading or trailing white space.
pub open spec fn trimmed(s: Seq<char>) -> Seq<char> {
    strip_both(s, ws())
}

/// A string that `str::trim` empties: every character is white space.
pub open spec fn is_blank(s: Seq<char>) -> bool {
    forall|i: int| 0 <= i < s.len() ==> is_white_space(s[i])
}

pub proof fn lemma_leading_count(s: Seq<char>, p: spec_fn(char) -> bool, k: int)
    requires
        0 <= k <= s.len(),
        forall|j: int| 0 <= j < k ==> p(s[j]),
        k == s.len() || !p(s[k]),
    ensures
        leading_count(s, p) == k,
    decreases s.len(),
{
    if s.len() > 0 && k > 0 {
        lemma_leading_count(s.drop_first(), p, k - 1);
    }
}

pub proof fn lemma_trailing_count(s: Seq<char>, p: spec_fn(char) -> bool, k: int)
    requires
        0 <= k <= s.len(),
        forall|j: int| s.len() - k <= j < s.len() ==> p(s[j]),
        k == s.len() || !p(s[s.len() - k - 1]),
    ensures
        trailing_count(s, p) == k,
    decreases s.len(),
{
    if s.len() > 0 && k > 0 {
        lemma_trailing_count(s.drop_last(), p, k - 1);
    }
}

/// Index of the first character of `s` not matching the predicate, counting
/// from the front; `s@.len()` when all match.
fn front_end(s: &str, on_slash: bool) -> (r: usize)
    ensures
        r == leading_count(s@, if on_slash { slash() } else { ws() }),
{
    let ghost p = if on_slash { slash() } else { ws() };
    let n = s.unicode_len();
    let mut i: usize = 0;
    while i < n
        invariant
            n == s@.len(),
            i <= n,
            p == (if on_slash { slash() } else { ws() }),
            forall|j: int| 0 <= j < i ==> p(s@[j]),
        decreases n - i,
    {
        let c = s.get_char(i);
        let hit = if on_slash { c == '/' } else { is_white_space_char(c) };
        if !hit {
            proof {
                lemma_leading_count(s@, p, i as int);
            }
            return i;
        }
        i = i + 1;
    }
    proof {
        lemma_leading_count(s@, p, i as int);
    }
    i
}

/// Number of trailing characters of `s` matching the predicate.
fn back_count(s: &str, on_slash: bool) -> (r: usize)
    ensures
        r == trailing_count(s@, if on_slash { slash() } else { ws() }),
        r <= s@.len(),
{
    let ghost p = if on_slash { slash() } else { ws() };
    let n = s.unicode_len();
    let mut k: usize = 0;
    while k < n
        invariant
            n == s@.len(),
            k <= n,
            p == (if on_slash { slash() } else { ws() }),
            forall|j: int| n - k <= j < n ==> p(s@[j]),
        decreases n - k,
    {
        let c = s.get_char(n - k - 1);
        let hit = if on_slash { c == '/' } else { is_white_space_char(c) };
        if !hit {
            proof {
                lemma_trailing_count(s@, p, k as int);
            }
            return k;
        }
        k = k + 1;
    }
    proof {
        lemma_trailing_count(s@, p, k as int);
    }
    k
}

proof fn lemma_counts_meet(s: Seq<char>, p: spec_fn(char) -> bool)
    requires
        leading_count(s, p) < s.len(),
    ensures
        leading_count(s, p) + trailing_count(s, p) < s.len(),
    decreases s.len(),
{
    let f = leading_count(s, p);
    lemma_leading_facts(s, p);
    lemma_trailing_facts(s, p);
    // the character at index f does not match, so the trailing run stops after it
    if f + trailing_count(s, p) >= s.len() {
        let t = trailing_count(s, p);
        assert(s.len() - t <= f);
        assert(p(s[f as int]));
    }
}

pub proof fn lemma_leading_facts(s: Seq<char>, p: spec_fn(char) -> bool)
    ensures
        leading_count(s, p) <= s.len(),
        forall|j: int| 0 <= j < leading_count(s, p) ==> p(s[j]),
        leading_count(s, p) < s.len() ==> !p(s[leading_count(s, p) as int]),
    decreases s.len(),
{
    if s.len() > 0 && p(s[0]) {
        lemma_leading_facts(s.drop_first(), p);
        assert forall|j: int| 0 <= j < leading_count(s, p) implies p(s[j]) by {
            if j > 0 {
                assert(s[j] == s.drop_first()[j - 1]);
            }
        }
    }
}

pub proof fn lemma_trailing_facts(s: Seq<char>, p: spec_fn(char) -> bool)
    ensures
        trailing_count(s, p) <= s.len(),
        forall|j: int| s.len() - trailing_count(s, p) <= j < s.len() ==> p(s[j]),
        trailing_count(s, p) < s.len() ==> !p(s[s.len() - trailing_count(s, p) - 1]),
    decreases s.len(),
{
    if s.len() > 0 && p(s.last()) {
        lemma_trailing_facts(s.drop_last(), p);
        assert forall|j: int| s.len() - trailing_count(s, p) <= j < s.len() implies p(s[j]) by {
            if j < s.len() - 1 {
                assert(s[j] == s.drop_last()[j]);
            }
        }
    }
}

fn strip_impl(s: &str, on_slash: bool) -> (r: String)
    ensures
        r@ == strip_both(s@, if on_slash { slash() } else { ws() }),
{
    let ghost p = if on_slash { slash() } else { ws() };
    let n = s.unicode_len();
    let f = front_end(s, on_slash);
    if f == n {
        return String::new();
    }
    proof {
        lemma_leading_facts(s@, p);
        lemma_counts_meet(s@, p);
    }
    let b = back_count(s, on_slash);
    owned(s.substring_char(f, n - b))
}

/// `str::trim`.
pub fn trim(s: &str) -> (r: String)
    ensures
        r@ == trimmed(s@),
{
    strip_impl(s, false)
}

/// `str::trim_matches('/')`.
pub fn trim_slashes(s: &str) -> (r: String)
    ensures
        r@ == strip_both(s@, slash()),
{
    strip_impl(s, true)
}

/// `str::trim_end_matches('/')`.
pub fn trim_end_slashes(s: &str) -> (r: String)
    ensures
        r@ == strip_end(s@, slash()),
{
    let n = s.unicode_len();
    let b = back_count(s, true);
    owned(s.substring_char(0, n - b))
}

/// Whether `str::trim` leaves nothing of `s`.
pub fn blank(s: &str) -> (r: bool)
    ensures
        r == is_blank(s@),
{
    let n = s.unicode_len();
    let mut i: usize = 0;
    while i < n
        invariant
            n == s@.len(),
            i <= n,
            forall|j: int| 0 <= j < i ==> is_white_space(s@[j]),
        decreases n - i,
    {
        if !is_white_space_char(s.get_char(i)) {
            return false;
        }
        i = i + 1;
    }
    true
}



/// Whether `t` occurs in `s` as a run of consecutive characters.
pub open spec fn occurs_in(s: Seq<char>, t: Seq<char>) -> bool {
    exists|i: int| 0 <= i && i + t.len() <= s.len() && #[trigger] s.subrange(i, i + t.len()) == t
}

/// `str::contains` on a string pattern.
pub fn has_substring(s: &str, t: &str) -> (r: bool)
    ensures
        r == occurs_in(s@, t@),
{
    let n = s.unicode_len();
    let m = t.unicode_len();
    if m > n {
        return false;
    }
    if m == 0 {
        assert(s@.subrange(0int, 0int + t@.len()) =~= t@);
        return true;
    }
    let mut i: usize = 0;
    while i <= n - m
        invariant
            n == s@.len(),
            m == t@.len(),
            0 < m <= n,
            i <= n - m + 1,
            forall|j: int| 0 <= j < i ==> #[trigger] s@.subrange(j, j + m) != t@,
        decreases n - m + 1 - i,
    {
        if text_eq(s.substring_char(i, i + m), t) {
            return true;
        }
        i = i + 1;
    }
    false
}

/// What stripping leaves has none of the stripped characters at either end.
pub proof fn lemma_strip_both_ends(s: Seq<char>, p: spec_fn(char) -> bool)
    ensures
        strip_both(s, p).len() > 0 ==> !p(strip_both(s, p)[0]) && !p(strip_both(s, p).last()),
{
    lemma_leading_facts(s, p);
    lemma_trailing_facts(s, p);
    let front = leading_count(s, p);
    let back = trailing_count(s, p);
    if front < s.len() {
        assert(!p(s[front as int]));
        if s.len() - back <= front {
            assert(p(s[front as int]));
        }
        let r = strip_both(s, p);
        assert(r[0] == s[front as int]);
        assert(r.last() == s[s.len() - back - 1]);
    }
}

/// Stripping slashes from `/` followed by a name with no slash at either
/// end gives the name back.
pub proof fn lemma_strip_slash_prefix(name: Seq<char>)
    requires
        name.len() > 0,
        name[0] != '/',
        name.last() != '/',
    ensures
        strip_both("/"@ + name, slash()) == name,
{
    reveal_strlit("/");
    let s = "/"@ + name;
    assert(s[1] == name[0]);
    assert(s.last() == name.last());
    lemma_leading_count(s, slash(), 1);
    lemma_trailing_count(s, slash(), 0);
    assert(s.subrange(1, s.len() as int) =~= name);
}

} // verus!
