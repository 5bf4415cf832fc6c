//! Text helpers: building messages and searching strings.
use vstd::prelude::*;

verus! {

/// `needle` occurs in `hay` as a contiguous run of characters.
pub open spec fn seq_contains(hay: Seq<char>, needle: Seq<char>) -> bool {
    exists|i: int| 0 <= i && i + needle.len() <= hay.len() && #[trigger] hay.subrange(i, i + needle.len()) == needle
}

/// `prefix` is the beginning of `s`.
pub open spec fn seq_starts_with(s: Seq<char>, prefix: Seq<char>) -> bool {
    prefix.len() <= s.len() && s.subrange(0, prefix.len() as int) == prefix
}

/// `suffix` is the end of `s`.
pub open spec fn seq_ends_with(s: Seq<char>, suffix: Seq<char>) -> bool {
    suffix.len() <= s.len() && s.subrange(s.len() - suffix.len(), s.len() as int) == suffix
}

/// `needle` occurs in `h` at position `i`.
fn occurs_at(h: &Vec<char>, n: &Vec<char>, i: usize) -> (r: bool)
    requires
        i + n@.len() <= h@.len(),
        h@.len() <= isize::MAX,
    ensures
        r == (h@.subrange(i as int, i + n@.len()) == n@),
{
    let mut j: usize = 0;
    while j < n.len()
        invariant
            i + n@.len() <= h@.len(),
            h@.len() <= isize::MAX,
            j <= n@.len(),
            forall|k: int| 0 <= k < j ==> h@[i + k] == n@[k],
        decreases n@.len() - j,
    {
        if h[i + j] != n[j] {
            proof {
                assert(h@.subrange(i as int, i + n@.len())[j as int] != n@[j as int]);
            }
            return false;
        }
        j = j + 1;
    }
    proof {
        assert(h@.subrange(i as int, i + n@.len()) =~= n@);
    }
    true
}

/// True when `needle` is a substring of `hay` (what `str::contains` with a
/// string pattern tests).
pub(crate) fn str_contains(hay: &str, needle: &str) -> (r: bool)
    ensures
        r == seq_contains(hay@, needle@),
{
    let h = crate::levenshtein::chars_of(hay);
    let n = crate::levenshtein::chars_of(needle);
    if n.len() > h.len() {
        return false;
    }
    let last = h.len() - n.len();
    let mut i: usize = 0;
    while i <= last
        invariant
            h@ == hay@,
            n@ == needle@,
            h@.len() <= isize::MAX,
            last + n@.len() == h@.len(),
            i <= last + 1,
            forall|k: int| 0 <= k < i ==> #[trigger] hay@.subrange(k, k + needle@.len()) != needle@,
        decreases last + 1 - i,
    {
        if occurs_at(&h, &n, i) {
            return true;
        }
        i = i + 1;
    }
    proof {
        assert forall|k: int| 0 <= k && k + needle@.len() <= hay@.len() implies #[trigger] hay@.subrange(
            k,
            k + needle@.len(),
        ) != needle@ by {
            assert(k < i);
        }
    }
    false
}

/// `String::push`: appends the character `c` to `s`.
#[verifier::external_body]
pub(crate) fn push_char(s: &mut String, c: char)
    ensures
        final(s)@ == old(s)@.push(c),
{
    s.push(c);
}

/// A new string holding the characters of `a` followed by those of `b`.
pub fn concat(a: &str, b: &str) -> (r: String)
    ensures
        r@ == a@ + b@,
{
    let mut s = String::from_str(a);
    s.append(b);
    s
}

/// True when `s` starts with `prefix`.
pub fn starts_with(s: &str, prefix: &str) -> (r: bool)
    ensures
        r == seq_starts_with(s@, prefix@),
{
    let n = prefix.unicode_len();
    let m = s.unicode_len();
    if n > m {
        return false;
    }
    let mut i: usize = 0;
    while i < n
        invariant
            n == prefix@.len(),
            m == s@.len(),
            n <= m,
            i <= n,
            forall|j: int| 0 <= j < i ==> s@[j] == prefix@[j],
        decreases n - i,
    {
        if s.get_char(i) != prefix.get_char(i) {
            proof {
                assert(s@.subrange(0, n as int)[i as int] != prefix@[i as int]);
            }
            return false;
        }
        i = i + 1;
    }
    proof {
        assert(s@.subrange(0, n as int) =~= prefix@);
    }
    true
}

/// `str::len`: the length of `s` in bytes of UTF-8.
#[verifier::external_body]
pub(crate) fn byte_len(s: &str) -> (r: usize)
    ensures
        r == vstd::utf8::encode_utf8(s@).len(),
{
    s.len()
}

/// `s` with every occurrence of `p` removed, scanning left to right
/// (the matches do not overlap).
pub open spec fn remove_all(s: Seq<char>, p: Seq<char>) -> Seq<char>
    decreases s.len(),
{
    if s.len() == 0 {
        Seq::empty()
    } else if p.len() > 0 && seq_starts_with(s, p) {
        remove_all(s.subrange(p.len() as int, s.len() as int), p)
    } else {
        seq![s[0]] + remove_all(s.drop_first(), p)
    }
}

/// A copy of `s` with every occurrence of `p` removed (as `s.replace(p, "")`).
pub fn remove_pattern(s: &str, p: &str) -> (r: String)
    ensures
        r@ == remove_all(s@, p@),
{
    let x = crate::levenshtein::chars_of(s);
    let y = crate::levenshtein::chars_of(p);
    let n = x.len();
    let m = y.len();
    let mut r = String::new();
    let mut i: usize = 0;
    proof {
        assert(x@.subrange(0, n as int) =~= x@);
        assert(r@ + remove_all(x@, y@) =~= remove_all(x@, y@));
    }
    while i < n
        invariant
            x@ == s@,
            y@ == p@,
            n == x@.len(),
            m == y@.len(),
            i <= n,
            r@ + remove_all(x@.subrange(i as int, n as int), y@) == remove_all(x@, y@),
        decreases n - i,
    {
        let ghost rest = x@.subrange(i as int, n as int);
        let mut matched = m > 0 && m <= n - i;
        let mut k: usize = 0;
        while matched && k < m
            invariant
                x@ == s@,
                y@ == p@,
                n == x@.len(),
                m == y@.len(),
                i < n,
                k <= m,
                matched ==> 0 < m <= n - i,
                matched ==> forall|q: int| 0 <= q < k ==> x@[i + q] == y@[q],
                !matched ==> !(m > 0 && seq_starts_with(rest, y@)),
                rest == x@.subrange(i as int, n as int),
            decreases m - k,
        {
            if x[i + k] != y[k] {
                proof {
                    if m > 0 && seq_starts_with(rest, y@) {
                        assert(rest.subrange(0, m as int)[k as int] == y@[k as int]);
                    }
                }
                matched = false;
            }
            k = k + 1;
        }
        if matched {
            proof {
                assert(rest.subrange(0, m as int) =~= y@);
                assert(rest.subrange(m as int, rest.len() as int) =~= x@.subrange(i + m, n as int));
            }
            i = i + m;
        } else {
            proof {
                assert(rest.drop_first() =~= x@.subrange(i + 1, n as int));
                assert(rest[0] == x@[i as int]);
            }
            let ghost before = r@;
            push_char(&mut r, x[i]);
            proof {
                assert(r@ + remove_all(x@.subrange(i + 1, n as int), y@) =~= before + (seq![x@[i as int]] + remove_all(
                    x@.subrange(i + 1, n as int),
                    y@,
                )));
            }
            i = i + 1;
        }
    }
    proof {
        assert(x@.subrange(n as int, n as int) =~= Seq::<char>::empty());
        assert(r@ + Seq::<char>::empty() =~= r@);
    }
    r
}

} // verus!
