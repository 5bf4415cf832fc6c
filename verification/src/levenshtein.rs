//! Edit distance between two strings, counted in characters.
use vstd::prelude::*;
use vstd::string::StringSliceAdditionalSpecFns;

verus! {

pub open spec fn min3(x: nat, y: nat, z: nat) -> nat {
    if x <= y && x <= z {
        x
    } else if y <= z {
        y
    } else {
        z
    }
}

/// Least number of single-character insertions, deletions and
/// substitutions that turn `a` into `b`.
pub open spec fn edit_distance<T>(a: Seq<T>, b: Seq<T>) -> nat
    decreases a.len() + b.len(),
{
    if a.len() == 0 {
        b.len()
    } else if b.len() == 0 {
        a.len()
    } else {
        let cost: nat = if a.last() == b.last() {
            0
        } else {
            1
        };
        min3(
            edit_distance(a.drop_last(), b.drop_last()) + cost,
            edit_distance(a.drop_last(), b) + 1,
            edit_distance(a, b.drop_last()) + 1,
        )
    }
}

/// The distance never exceeds the longer length.
pub proof fn lemma_edit_distance_bound<T>(a: Seq<T>, b: Seq<T>)
    ensures
        edit_distance(a, b) <= if a.len() >= b.len() {
            a.len()
        } else {
            b.len()
        },
    decreases a.len() + b.len(),
{
    if a.len() > 0 && b.len() > 0 {
        lemma_edit_distance_bound(a.drop_last(), b.drop_last());
    }
}

/// Distance between a string and itself is zero.
pub proof fn lemma_edit_distance_self<T>(a: Seq<T>)
    ensures
        edit_distance(a, a) == 0,
    decreases a.len(),
{
    if a.len() > 0 {
        lemma_edit_distance_self(a.drop_last());
    }
}

/// `str::chars`: the characters of `s`, in order. A vector never holds more
/// than `isize::MAX` bytes, so it has fewer than `isize::MAX` characters.
#[verifier::external_body]
pub(crate) fn chars_of(s: &str) -> (r: Vec<char>)
    ensures
        r@ == s@,
        r@.len() <= isize::MAX,
{
    s.chars().collect()
}

/// Edit distance of two character sequences, by dynamic programming over
/// two rows.
pub fn distance_of(a: &Vec<char>, b: &Vec<char>) -> (d: usize)
    requires
        a@.len() <= isize::MAX,
        b@.len() <= isize::MAX,
    ensures
        d == edit_distance(a@, b@),
{
    let n = a.len();
    let m = b.len();
    let mut prev: Vec<usize> = Vec::new();
    let mut j: usize = 0;
    while j <= m
        invariant
            m == b@.len(),
            m <= isize::MAX,
            j <= m + 1,
            prev@.len() == j,
            forall|k: int| 0 <= k < j ==> #[trigger] prev@[k] == edit_distance(a@.take(0), b@.take(k)),
        decreases m + 1 - j,
    {
        prev.push(j);
        j = j + 1;
    }
    let mut i: usize = 1;
    while i <= n
        invariant
            n == a@.len(),
            m == b@.len(),
            n <= isize::MAX,
            m <= isize::MAX,
            1 <= i <= n + 1,
            prev@.len() == m + 1,
            forall|k: int| 0 <= k <= m ==> #[trigger] prev@[k] == edit_distance(a@.take(i - 1), b@.take(k)),
        decreases n + 1 - i,
    {
        let mut cur: Vec<usize> = Vec::new();
        cur.push(i);
        proof {
            assert(b@.take(0).len() == 0);
        }
        let mut j: usize = 1;
        while j <= m
            invariant
                n == a@.len(),
                m == b@.len(),
                n <= isize::MAX,
                m <= isize::MAX,
                1 <= i <= n,
                1 <= j <= m + 1,
                prev@.len() == m + 1,
                cur@.len() == j,
                forall|k: int| 0 <= k <= m ==> #[trigger] prev@[k] == edit_distance(a@.take(i - 1), b@.take(k)),
                forall|k: int| 0 <= k < j ==> #[trigger] cur@[k] == edit_distance(a@.take(i as int), b@.take(k)),
            decreases m + 1 - j,
        {
            let ghost ai = a@.take(i as int);
            let ghost bj = b@.take(j as int);
            proof {
                assert(ai.drop_last() =~= a@.take(i - 1));
                assert(bj.drop_last() =~= b@.take(j - 1));
                assert(ai.last() == a@[i - 1]);
                assert(bj.last() == b@[j - 1]);
                lemma_edit_distance_bound(a@.take(i - 1), b@.take(j as int));
                lemma_edit_distance_bound(ai, b@.take(j - 1));
                lemma_edit_distance_bound(a@.take(i - 1), b@.take(j - 1));
            }
            let cost: usize = if a[i - 1] == b[j - 1] {
                0
            } else {
                1
            };
            let sub = prev[j - 1] + cost;
            let del = prev[j] + 1;
            let ins = cur[j - 1] + 1;
            let best = if sub <= del && sub <= ins {
                sub
            } else if del <= ins {
                del
            } else {
                ins
            };
            cur.push(best);
            j = j + 1;
        }
        prev = cur;
        i = i + 1;
    }
    proof {
        assert(a@.take(n as int) =~= a@);
        assert(b@.take(m as int) =~= b@);
    }
    prev[m]
}

/// Edit distance of two byte sequences, by dynamic programming over two rows.
pub fn byte_distance(a: &Vec<u8>, b: &Vec<u8>) -> (d: usize)
    requires
        a@.len() <= isize::MAX,
        b@.len() <= isize::MAX,
    ensures
        d == edit_distance(a@, b@),
{
    let n = a.len();
    let m = b.len();
    let mut prev: Vec<usize> = Vec::new();
    let mut j: usize = 0;
    while j <= m
        invariant
            m == b@.len(),
            m <= isize::MAX,
            j <= m + 1,
            prev@.len() == j,
            forall|k: int| 0 <= k < j ==> #[trigger] prev@[k] == edit_distance(a@.take(0), b@.take(k)),
        decreases m + 1 - j,
    {
        prev.push(j);
        j = j + 1;
    }
    let mut i: usize = 1;
    while i <= n
        invariant
            n == a@.len(),
            m == b@.len(),
            n <= isize::MAX,
            m <= isize::MAX,
            1 <= i <= n + 1,
            prev@.len() == m + 1,
            forall|k: int| 0 <= k <= m ==> #[trigger] prev@[k] == edit_distance(a@.take(i - 1), b@.take(k)),
        decreases n + 1 - i,
    {
        let mut cur: Vec<usize> = Vec::new();
        cur.push(i);
        proof {
            assert(b@.take(0).len() == 0);
        }
        let mut j: usize = 1;
        while j <= m
            invariant
                n == a@.len(),
                m == b@.len(),
                n <= isize::MAX,
                m <= isize::MAX,
                1 <= i <= n,
                1 <= j <= m + 1,
                prev@.len() == m + 1,
                cur@.len() == j,
                forall|k: int| 0 <= k <= m ==> #[trigger] prev@[k] == edit_distance(a@.take(i - 1), b@.take(k)),
                forall|k: int| 0 <= k < j ==> #[trigger] cur@[k] == edit_distance(a@.take(i as int), b@.take(k)),
            decreases m + 1 - j,
        {
            let ghost ai = a@.take(i as int);
            let ghost bj = b@.take(j as int);
            proof {
                assert(ai.drop_last() =~= a@.take(i - 1));
                assert(bj.drop_last() =~= b@.take(j - 1));
                assert(ai.last() == a@[i - 1]);
                assert(bj.last() == b@[j - 1]);
                lemma_edit_distance_bound(a@.take(i - 1), b@.take(j as int));
                lemma_edit_distance_bound(ai, b@.take(j - 1));
                lemma_edit_distance_bound(a@.take(i - 1), b@.take(j - 1));
            }
            let cost: usize = if a[i - 1] == b[j - 1] {
                0
            } else {
                1
            };
            let sub = prev[j - 1] + cost;
            let del = prev[j] + 1;
            let ins = cur[j - 1] + 1;
            let best = if sub <= del && sub <= ins {
                sub
            } else if del <= ins {
                del
            } else {
                ins
            };
            cur.push(best);
            j = j + 1;
        }
        prev = cur;
        i = i + 1;
    }
    proof {
        assert(a@.take(n as int) =~= a@);
        assert(b@.take(m as int) =~= b@);
    }
    prev[m]
}

/// Edit distance between two strings, counted in characters.
pub fn levenshtein(a: &str, b: &str) -> (d: usize)
    ensures
        d == edit_distance(a@, b@),
{
    let x = chars_of(a);
    let y = chars_of(b);
    distance_of(&x, &y)
}

/// `str::as_bytes`, copied into a vector: the UTF-8 bytes of `s`. A vector
/// never holds more than `isize::MAX` bytes.
#[verifier::external_body]
pub(crate) fn bytes_of(s: &str) -> (r: Vec<u8>)
    ensures
        r@ == s.spec_bytes(),
        r@.len() <= isize::MAX,
{
    s.as_bytes().to_vec()
}

/// Edit distance between two strings, counted in UTF-8 bytes.
pub fn byte_levenshtein(a: &str, b: &str) -> (d: usize)
    ensures
        d == edit_distance(a.spec_bytes(), b.spec_bytes()),
{
    let x = bytes_of(a);
    let y = bytes_of(b);
    byte_distance(&x, &y)
}

} // verus!
