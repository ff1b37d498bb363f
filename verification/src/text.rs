//! Characters of strings: reading them, building a string from them, and
//! looking for a suffix or a piece of text.
use vstd::prelude::*;

verus! {

/// `s` ends with `suffix`.
pub open spec fn has_suffix(s: Seq<char>, suffix: Seq<char>) -> bool {
    suffix.len() <= s.len() && s.skip(s.len() - suffix.len()) == suffix
}

/// `pattern` occurs in `s` at `start`.
pub open spec fn occurs_at(s: Seq<char>, pattern: Seq<char>, start: int) -> bool {
    0 <= start && start + pattern.len() <= s.len() && s.subrange(start, start + pattern.len())
        == pattern
}

/// `pattern` occurs somewhere in `s`.
pub open spec fn has_infix(s: Seq<char>, pattern: Seq<char>) -> bool {
    exists|start: int| occurs_at(s, pattern, start)
}

/// A suffix of a suffix is a suffix.
pub proof fn lemma_suffix_transitive(a: Seq<char>, b: Seq<char>, c: Seq<char>)
    requires
        has_suffix(a, b),
        has_suffix(b, c),
    ensures
        has_suffix(a, c),
{
    assert forall|k: int| 0 <= k < c.len() implies #[trigger] a.skip(a.len() - c.len())[k] == c[k] by {
        assert(a.skip(a.len() - b.len())[b.len() - c.len() + k] == b[b.len() - c.len() + k]);
        assert(b.skip(b.len() - c.len())[k] == c[k]);
    }
    assert(a.skip(a.len() - c.len()) =~= c);
}

/// What occurs in a piece that occurs in `a` occurs in `a`.
pub proof fn lemma_infix_transitive(a: Seq<char>, b: Seq<char>, c: Seq<char>)
    requires
        has_infix(a, b),
        has_infix(b, c),
    ensures
        has_infix(a, c),
{
    let i = choose|i: int| occurs_at(a, b, i);
    let j = choose|j: int| occurs_at(b, c, j);
    assert forall|k: int| 0 <= k < c.len() implies #[trigger] a.subrange(i + j, i + j + c.len())[k]
        == c[k] by {
        assert(a.subrange(i, i + b.len())[j + k] == b[j + k]);
        assert(b.subrange(j, j + c.len())[k] == c[k]);
    }
    assert(a.subrange(i + j, i + j + c.len()) =~= c);
    assert(occurs_at(a, c, i + j));
}

/// The empty text occurs in every text.
pub proof fn lemma_empty_infix(a: Seq<char>)
    ensures
        has_infix(a, Seq::<char>::empty()),
{
    assert(a.subrange(0, 0) =~= Seq::<char>::empty());
    assert(occurs_at(a, Seq::<char>::empty(), 0));
}

/// The characters of `s`, in order.
pub fn chars_of(s: &str) -> (r: Vec<char>)
    ensures
        r@ == s@,
{
    let mut r: Vec<char> = Vec::new();
    for c in it: s.chars()
        invariant
            r@ == it.seq().take(it.index() as int),
    {
        r.push(c);
    }
    r
}

/// Appends `c` to `s`. It calls std's `String::push`, which appends the
/// character to the end of the string.
#[verifier::external_body]
fn push_char(s: &mut String, c: char)
    ensures
        final(s)@ == old(s)@.push(c),
{
    s.push(c);
}

/// The string made of the characters `chars`, in order.
pub fn string_from_chars(chars: &Vec<char>) -> (s: String)
    ensures
        s@ == chars@,
{
    let mut s = String::new();
    let n = chars.len();
    let mut i: usize = 0;
    while i < n
        invariant
            n == chars@.len(),
            i <= n,
            s@ == chars@.take(i as int),
        decreases n - i,
    {
        push_char(&mut s, chars[i]);
        assert(s@ =~= chars@.take(i + 1));
        i += 1;
    }
    assert(chars@.take(n as int) =~= chars@);
    s
}

/// Whether `s` ends with `suffix`.
pub fn ends_with(s: &str, suffix: &str) -> (r: bool)
    ensures
        r == has_suffix(s@, suffix@),
{
    let a = chars_of(s);
    let b = chars_of(suffix);
    let n = a.len();
    let m = b.len();
    if m > n {
        return false;
    }
    let mut k: usize = 0;
    while k < m
        invariant
            n == a@.len(),
            m == b@.len(),
            m <= n,
            k <= m,
            a@ == s@,
            b@ == suffix@,
            forall|q: int| 0 <= q < k ==> a@[n - m + q] == b@[q],
        decreases m - k,
    {
        if a[n - m + k] != b[k] {
            assert(a@.skip(n - m)[k as int] != b@[k as int]);
            return false;
        }
        k += 1;
    }
    assert(a@.skip(n - m) =~= b@);
    true
}

/// Whether `pattern` occurs in `s` at `start`.
fn matches_at(s: &Vec<char>, pattern: &Vec<char>, start: usize) -> (r: bool)
    requires
        start + pattern@.len() <= s@.len(),
    ensures
        r == occurs_at(s@, pattern@, start as int),
{
    let n = s.len();
    let m = pattern.len();
    let mut k: usize = 0;
    while k < m
        invariant
            n == s@.len(),
            m == pattern@.len(),
            start + m <= s@.len(),
            k <= m,
            forall|q: int| 0 <= q < k ==> s@[start + q] == pattern@[q],
        decreases m - k,
    {
        if s[start + k] != pattern[k] {
            assert(s@.subrange(start as int, start + m)[k as int] != pattern@[k as int]);
            return false;
        }
        k += 1;
    }
    assert(s@.subrange(start as int, start + m) =~= pattern@);
    true
}

/// Whether `pattern` occurs somewhere in `s`.
pub fn contains(s: &str, pattern: &str) -> (r: bool)
    ensures
        r == has_infix(s@, pattern@),
{
    let a = chars_of(s);
    let b = chars_of(pattern);
    let n = a.len();
    let m = b.len();
    if m > n {
        assert(!has_infix(s@, pattern@)) by {
            assert forall|start: int| !occurs_at(s@, pattern@, start) by {}
        }
        return false;
    }
    let mut start: usize = 0;
    loop
        invariant
            n == a@.len(),
            m == b@.len(),
            m <= n,
            start <= n - m,
            a@ == s@,
            b@ == pattern@,
            forall|q: int| 0 <= q < start ==> !occurs_at(s@, pattern@, q),
        decreases n - m - start,
    {
        if matches_at(&a, &b, start) {
            return true;
        }
        if start == n - m {
            assert(!has_infix(s@, pattern@)) by {
                assert forall|q: int| !occurs_at(s@, pattern@, q) by {
                    if 0 <= q < start {
                    }
                }
            }
            return false;
        }
        start += 1;
    }
}

/// The characters of `s` in lower case, as std's `str::to_lowercase`
/// gives them: Unicode's full lower-case mapping, one character at a time,
/// with a capital sigma at the end of a word turned into a final sigma.
pub uninterp spec fn lowercase(s: Seq<char>) -> Seq<char>;

/// `s` in lower case. It calls std's `str::to_lowercase`; the contract
/// claims only that the result depends on the characters of `s` alone, and
/// names it `lowercase`: the Unicode tables behind it are not stated here.
#[verifier::external_body]
pub(crate) fn to_lowercase(s: &str) -> (r: String)
    ensures
        r@ == lowercase(s@),
{
    s.to_lowercase()
}

} // verus!
