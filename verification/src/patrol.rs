//! Integration patrol: whether the public functions of a module are used at
//! the ring where they are expected to be used.
//!
//! Ring 0 is the module's own tests, ring 1 the sibling modules, ring 2 the
//! command-line handlers and the chain registry. A feature must reach ring 2,
//! a library function ring 1; an unclassified function that reaches only
//! ring 0 is flagged until someone classifies it.
use vstd::prelude::*;
use crate::levenshtein::{chars_of, bytes_of};
use crate::text::{seq_contains, seq_starts_with, str_contains, starts_with, push_char};
use crate::engine::names_view;
use vstd::string::StringSliceAdditionalSpecFns;
use vstd::utf8::encode_utf8;
use crate::index::{text_lt, text_less, strictly_sorted, lemma_text_lt_transitive, lemma_text_lt_total, lemma_text_lt_asymmetric};
use crate::interface::contains_name;

verus! {

// ───────────────────────────── lines ─────────────────────────────

/// A line without the carriage return that ended it, if any.
pub open spec fn strip_cr(l: Seq<char>) -> Seq<char> {
    if l.len() > 0 && l[l.len() - 1] == '\r' {
        l.drop_last()
    } else {
        l
    }
}

/// Reading the first `n` characters of `s`: the lines ended so far, and the
/// characters of the line being read.
pub open spec fn lines_acc(s: Seq<char>, n: nat) -> (Seq<Seq<char>>, Seq<char>)
    decreases n,
{
    if n == 0 {
        (Seq::empty(), Seq::empty())
    } else {
        let p = lines_acc(s, (n - 1) as nat);
        if s[n - 1] == '\n' {
            (p.0.push(strip_cr(p.1)), Seq::empty())
        } else {
            (p.0, p.1.push(s[n - 1]))
        }
    }
}

/// The lines of `s` as `str::lines` gives them: split at `\n`, a `\r` before
/// the `\n` dropped, and no empty line after a final `\n`.
pub open spec fn lines_of(s: Seq<char>) -> Seq<Seq<char>> {
    let p = lines_acc(s, s.len());
    if p.1.len() > 0 {
        p.0.push(p.1)
    } else {
        p.0
    }
}

/// Sum of the lengths of some lines.
pub open spec fn total_len(ls: Seq<Seq<char>>) -> nat
    decreases ls.len(),
{
    if ls.len() == 0 {
        0
    } else {
        total_len(ls.drop_last()) + ls[ls.len() - 1].len()
    }
}

proof fn lemma_lines_acc_len(s: Seq<char>, n: nat)
    requires
        n <= s.len(),
    ensures
        total_len(lines_acc(s, n).0) + lines_acc(s, n).1.len() <= n,
    decreases n,
{
    if n > 0 {
        lemma_lines_acc_len(s, (n - 1) as nat);
        let p = lines_acc(s, (n - 1) as nat);
        if s[n - 1] == '\n' {
            assert(p.0.push(strip_cr(p.1)).drop_last() =~= p.0);
        }
    }
}

/// The lines of a text hold no more characters than the text.
pub proof fn lemma_lines_len(s: Seq<char>)
    ensures
        total_len(lines_of(s)) <= s.len(),
{
    lemma_lines_acc_len(s, s.len());
    let p = lines_acc(s, s.len());
    if p.1.len() > 0 {
        assert(p.0.push(p.1).drop_last() =~= p.0);
    }
}

proof fn lemma_total_len_prefix(ls: Seq<Seq<char>>, k: int)
    requires
        0 <= k <= ls.len(),
    ensures
        total_len(ls.take(k)) <= total_len(ls),
    decreases ls.len() - k,
{
    if k < ls.len() {
        lemma_total_len_prefix(ls, k + 1);
        assert(ls.take(k + 1).drop_last() =~= ls.take(k));
    } else {
        assert(ls.take(k) =~= ls);
    }
}

/// The characters `lo..hi` of `cs` as a string.
fn string_from(cs: &Vec<char>, lo: usize, hi: usize) -> (r: String)
    requires
        lo <= hi <= cs@.len(),
    ensures
        r@ == cs@.subrange(lo as int, hi as int),
{
    let mut r = String::new();
    let mut i = lo;
    while i < hi
        invariant
            lo <= i <= hi,
            hi <= cs@.len(),
            r@ == cs@.subrange(lo as int, i as int),
        decreases hi - i,
    {
        push_char(&mut r, cs[i]);
        proof {
            assert(r@ =~= cs@.subrange(lo as int, i + 1));
        }
        i = i + 1;
    }
    r
}

/// The lines of `s` (see [`lines_of`]).
pub fn split_lines(s: &str) -> (r: Vec<String>)
    ensures
        names_view(r@) == lines_of(s@),
        s@.len() <= isize::MAX,
{
    let cs = chars_of(s);
    let n = cs.len();
    let mut lines: Vec<String> = Vec::new();
    let mut start: usize = 0;
    let mut i: usize = 0;
    while i < n
        invariant
            cs@ == s@,
            n == cs@.len(),
            start <= i <= n,
            names_view(lines@) == lines_acc(s@, i as nat).0,
            lines_acc(s@, i as nat).1 == s@.subrange(start as int, i as int),
        decreases n - i,
    {
        if cs[i] == '\n' {
            let hi = if i > start && cs[i - 1] == '\r' {
                i - 1
            } else {
                i
            };
            let line = string_from(&cs, start, hi);
            let ghost before = lines@;
            lines.push(line);
            proof {
                let cur = s@.subrange(start as int, i as int);
                assert(line@ =~= strip_cr(cur));
                assert(names_view(lines@) =~= names_view(before).push(line@));
                assert(s@.subrange(i + 1, i + 1) =~= Seq::<char>::empty());
            }
            start = i + 1;
        } else {
            proof {
                assert(s@.subrange(start as int, i + 1) =~= s@.subrange(start as int, i as int).push(s@[i as int]));
            }
        }
        i = i + 1;
    }
    if start < n {
        let line = string_from(&cs, start, n);
        let ghost before = lines@;
        lines.push(line);
        proof {
            assert(names_view(lines@) =~= names_view(before).push(line@));
        }
    }
    lines
}

// ───────────────────────────── trimming ─────────────────────────────

/// A character with the Unicode `White_Space` property.
pub open spec fn is_white(c: char) -> bool {
    let u = c as u32;
    ||| 0x09 <= u <= 0x0D
    ||| u == 0x20
    ||| u == 0x85
    ||| u == 0xA0
    ||| u == 0x1680
    ||| 0x2000 <= u <= 0x200A
    ||| u == 0x2028
    ||| u == 0x2029
    ||| u == 0x202F
    ||| u == 0x205F
    ||| u == 0x3000
}

fn is_white_char(c: char) -> (r: bool)
    ensures
        r == is_white(c),
{
    let u = c as u32;
    (0x09 <= u && u <= 0x0D) || u == 0x20 || u == 0x85 || u == 0xA0 || u == 0x1680 || (0x2000 <= u && u <= 0x200A) || u
        == 0x2028 || u == 0x2029 || u == 0x202F || u == 0x205F || u == 0x3000
}

/// Index of the first character at or after `i` that is not white space.
pub open spec fn lead(l: Seq<char>, i: int) -> int
    decreases l.len() - i,
{
    if 0 <= i < l.len() && is_white(l[i]) {
        lead(l, i + 1)
    } else {
        i
    }
}

/// End of `l.subrange(lo, j)` without its trailing white space.
pub open spec fn trail(l: Seq<char>, lo: int, j: int) -> int
    decreases j - lo,
{
    if lo < j <= l.len() && is_white(l[j - 1]) {
        trail(l, lo, j - 1)
    } else {
        j
    }
}

/// `l` without leading and trailing white space, as `str::trim` gives it.
pub open spec fn trimmed(l: Seq<char>) -> Seq<char> {
    let lo = lead(l, 0);
    l.subrange(lo, trail(l, lo, l.len() as int))
}

proof fn lemma_lead(l: Seq<char>, i: int)
    requires
        0 <= i <= l.len(),
    ensures
        i <= lead(l, i) <= l.len(),
    decreases l.len() - i,
{
    if i < l.len() && is_white(l[i]) {
        lemma_lead(l, i + 1);
    }
}

proof fn lemma_trail(l: Seq<char>, lo: int, j: int)
    requires
        0 <= lo <= j <= l.len(),
    ensures
        lo <= trail(l, lo, j) <= j,
    decreases j - lo,
{
    if lo < j && is_white(l[j - 1]) {
        lemma_trail(l, lo, j - 1);
    }
}

/// A trimmed line is no longer than the line.
pub proof fn lemma_trimmed_len(l: Seq<char>)
    ensures
        trimmed(l).len() <= l.len(),
{
    lemma_lead(l, 0);
    lemma_trail(l, lead(l, 0), l.len() as int);
}

/// `s` without leading and trailing white space.
pub fn trim_text(s: &str) -> (r: String)
    ensures
        r@ == trimmed(s@),
{
    let cs = chars_of(s);
    let n = cs.len();
    let mut lo: usize = 0;
    while lo < n && is_white_char(cs[lo])
        invariant
            cs@ == s@,
            n == cs@.len(),
            lo <= n,
            lead(s@, 0) == lead(s@, lo as int),
        decreases n - lo,
    {
        lo = lo + 1;
    }
    let mut hi: usize = n;
    while hi > lo && is_white_char(cs[hi - 1])
        invariant
            cs@ == s@,
            n == cs@.len(),
            lo <= hi <= n,
            lead(s@, 0) == lo,
            trail(s@, lo as int, n as int) == trail(s@, lo as int, hi as int),
        decreases hi - lo,
    {
        hi = hi - 1;
    }
    string_from(&cs, lo, hi)
}


// ───────────────────────────── test blocks ─────────────────────────────

/// Brace depth after reading `t` from depth `d`: `{` opens, `}` closes (not
/// below zero).
pub open spec fn brace_depth(d: nat, t: Seq<char>) -> nat
    decreases t.len(),
{
    if t.len() == 0 {
        d
    } else {
        let p = brace_depth(d, t.drop_last());
        let c = t[t.len() - 1];
        if c == '{' {
            p + 1
        } else if c == '}' {
            if p > 0 {
                (p - 1) as nat
            } else {
                0
            }
        } else {
            p
        }
    }
}

proof fn lemma_brace_depth(d: nat, t: Seq<char>)
    ensures
        brace_depth(d, t) <= d + t.len(),
    decreases t.len(),
{
    if t.len() > 0 {
        lemma_brace_depth(d, t.drop_last());
    }
}

/// State of test-block stripping: the text kept so far, the brace depth, whether
/// a test block is open, and whether the previous line was `#[cfg(test)]`.
pub type StripState = (Seq<char>, nat, bool, bool);

/// One line of test-block stripping. A `#[cfg(test)]` line is dropped; a
/// `mod` line right after it opens a test block; the lines of an open block
/// are dropped, and the block closes on a line with a `}` that brings the
/// depth back to zero; other lines are kept, each ended by `\n`.
pub open spec fn strip_step(st: StripState, line: Seq<char>) -> StripState {
    let t = trimmed(line);
    if seq_starts_with(t, "#[cfg(test)]"@) {
        (st.0, st.1, st.2, true)
    } else {
        let entering = st.3 && seq_starts_with(t, "mod "@);
        let d0: nat = if entering {
            0
        } else {
            st.1
        };
        if st.2 || entering {
            let d1 = brace_depth(d0, t);
            (st.0, d1, !(d1 == 0 && t.contains('}')), false)
        } else {
            (st.0 + line + seq!['\n'], d0, false, false)
        }
    }
}

/// Test-block stripping over the first `n` lines.
pub open spec fn strip_upto(lines: Seq<Seq<char>>, n: nat) -> StripState
    decreases n,
{
    if n == 0 {
        (Seq::empty(), 0, false, false)
    } else {
        strip_step(strip_upto(lines, (n - 1) as nat), lines[n - 1])
    }
}

/// `content` without its `#[cfg(test)]` module blocks.
pub open spec fn stripped(content: Seq<char>) -> Seq<char> {
    let ls = lines_of(content);
    strip_upto(ls, ls.len()).0
}

proof fn lemma_strip_depth(lines: Seq<Seq<char>>, n: nat)
    requires
        n <= lines.len(),
    ensures
        strip_upto(lines, n).1 <= total_len(lines.take(n as int)),
    decreases n,
{
    if n > 0 {
        lemma_strip_depth(lines, (n - 1) as nat);
        let line = lines[n - 1];
        lemma_trimmed_len(line);
        lemma_brace_depth(0, trimmed(line));
        lemma_brace_depth(strip_upto(lines, (n - 1) as nat).1, trimmed(line));
        assert(lines.take(n as int).drop_last() =~= lines.take(n - 1));
    }
}

/// Whether the text holds the character `c`.
fn has_char(t: &str, c: char) -> (r: bool)
    ensures
        r == t@.contains(c),
{
    let n = t.unicode_len();
    let mut i: usize = 0;
    while i < n
        invariant
            n == t@.len(),
            i <= n,
            forall|j: int| 0 <= j < i ==> t@[j] != c,
        decreases n - i,
    {
        if t.get_char(i) == c {
            return true;
        }
        i = i + 1;
    }
    false
}

/// `content` without its `#[cfg(test)]` module blocks (see [`strip_step`]),
/// so that references from test code are not counted as uses.
pub fn strip_test_blocks(content: &str) -> (r: String)
    ensures
        r@ == stripped(content@),
{
    let lines = split_lines(content);
    let ghost ls = lines_of(content@);
    proof {
        lemma_lines_len(content@);
    }
    let mut result = String::new();
    let mut depth: usize = 0;
    let mut in_test_block = false;
    let mut prev_line_was_cfg_test = false;
    let mut k: usize = 0;
    while k < lines.len()
        invariant
            ls == names_view(lines@),
            total_len(ls) <= content@.len(),
            content@.len() <= isize::MAX,
            k <= lines@.len(),
            strip_upto(ls, k as nat) == (result@, depth as nat, in_test_block, prev_line_was_cfg_test),
        decreases lines@.len() - k,
    {
        let line = lines[k].as_str();
        let trimmed_line = trim_text(line);
        let t = trimmed_line.as_str();
        proof {
            assert(ls[k as int] == line@);
            lemma_strip_depth(ls, k as nat);
            lemma_total_len_prefix(ls, k + 1);
            assert(ls.take(k + 1).drop_last() =~= ls.take(k as int));
            lemma_trimmed_len(line@);
        }
        if starts_with(t, "#[cfg(test)]") {
            prev_line_was_cfg_test = true;
        } else {
            let entering = prev_line_was_cfg_test && starts_with(t, "mod ");
            if entering {
                in_test_block = true;
                depth = 0;
            }
            prev_line_was_cfg_test = false;
            if in_test_block {
                let n = t.unicode_len();
                let ghost d0 = depth as nat;
                let mut j: usize = 0;
                proof {
                    assert(t@.take(0) =~= Seq::<char>::empty());
                }
                while j < n
                    invariant
                        n == t@.len(),
                        j <= n,
                        depth as nat == brace_depth(d0, t@.take(j as int)),
                        d0 + n <= isize::MAX,
                    decreases n - j,
                {
                    proof {
                        lemma_brace_depth(d0, t@.take(j as int));
                        assert(t@.take(j + 1).drop_last() =~= t@.take(j as int));
                    }
                    let ch = t.get_char(j);
                    if ch == '{' {
                        depth = depth + 1;
                    }
                    if ch == '}' {
                        depth = depth.saturating_sub(1);
                    }
                    j = j + 1;
                }
                proof {
                    assert(t@.take(n as int) =~= t@);
                }
                if depth == 0 && has_char(t, '}') {
                    in_test_block = false;
                }
            } else {
                result.append(line);
                push_char(&mut result, '\n');
            }
        }
        k = k + 1;
    }
    result
}


// ───────────────────────────── public functions ─────────────────────────────

/// Index of the first `(`, `<` or space at or after `i`, or the length.
pub open spec fn name_end(r: Seq<char>, i: int) -> int
    decreases r.len() - i,
{
    if i < 0 || i >= r.len() {
        r.len() as int
    } else if r[i] == '(' || r[i] == '<' || r[i] == ' ' {
        i
    } else {
        name_end(r, i + 1)
    }
}

/// The function a line declares, if it is a public free function: the
/// trimmed line starts with `pub fn `, takes no `self`, and names a function.
pub open spec fn pub_fn_name(line: Seq<char>) -> Option<Seq<char>> {
    let t = trimmed(line);
    if !seq_starts_with(t, "pub fn "@) {
        None
    } else if seq_contains(t, "&self"@) || seq_contains(t, "&mut self"@) || seq_contains(t, "(self"@) {
        None
    } else {
        let rest = t.skip("pub fn "@.len() as int);
        let name = rest.take(name_end(rest, 0));
        if name.len() > 0 {
            Some(name)
        } else {
            None
        }
    }
}

/// The public free functions declared in some lines, in order.
pub open spec fn pub_fn_names(lines: Seq<Seq<char>>) -> Seq<Seq<char>>
    decreases lines.len(),
{
    if lines.len() == 0 {
        Seq::empty()
    } else {
        let p = pub_fn_names(lines.drop_last());
        match pub_fn_name(lines[lines.len() - 1]) {
            Some(n) => p.push(n),
            None => p,
        }
    }
}

proof fn lemma_name_end(r: Seq<char>, i: int)
    requires
        0 <= i <= r.len(),
    ensures
        i <= name_end(r, i) <= r.len(),
    decreases r.len() - i,
{
    if i < r.len() && !(r[i] == '(' || r[i] == '<' || r[i] == ' ') {
        lemma_name_end(r, i + 1);
    }
}

/// The function declared by one line, computed.
fn pub_fn_of_line(line: &str) -> (r: Option<String>)
    ensures
        opt_string_view(r) == pub_fn_name(line@),
{
    let trimmed_line = trim_text(line);
    let t = trimmed_line.as_str();
    proof {
        reveal_strlit("pub fn ");
    }
    if !starts_with(t, "pub fn ") {
        return None;
    }
    if str_contains(t, "&self") || str_contains(t, "&mut self") || str_contains(t, "(self") {
        return None;
    }
    let cs = chars_of(t);
    let n = cs.len();
    let ghost rest = t@.skip(7);
    let mut e: usize = 7;
    proof {
        lemma_name_end(rest, 0);
    }
    while e < n && cs[e] != '(' && cs[e] != '<' && cs[e] != ' '
        invariant
            cs@ == t@,
            n == cs@.len(),
            7 <= e <= n,
            rest == t@.skip(7),
            name_end(rest, 0) == name_end(rest, e - 7),
        decreases n - e,
    {
        e = e + 1;
    }
    proof {
        assert(name_end(rest, e - 7) == e - 7);
        assert(rest.take(e - 7) =~= t@.subrange(7, e as int));
    }
    if e > 7 {
        Some(string_from(&cs, 7, e))
    } else {
        None
    }
}

/// View of an optional string.
pub open spec fn opt_string_view(s: Option<String>) -> Option<Seq<char>> {
    match s {
        Some(x) => Some(x@),
        None => None,
    }
}

/// The public free functions declared in `source`, line by line. A method
/// (a line with `&self`, `&mut self` or `(self`) is not counted.
pub fn extract_pub_functions(source: &str) -> (r: Vec<String>)
    ensures
        names_view(r@) == pub_fn_names(lines_of(source@)),
{
    let lines = split_lines(source);
    let ghost ls = lines_of(source@);
    let mut fns: Vec<String> = Vec::new();
    let mut k: usize = 0;
    while k < lines.len()
        invariant
            ls == names_view(lines@),
            k <= lines@.len(),
            names_view(fns@) == pub_fn_names(ls.take(k as int)),
        decreases lines@.len() - k,
    {
        proof {
            assert(ls.take(k + 1).drop_last() =~= ls.take(k as int));
            assert(ls[k as int] == lines@[k as int]@);
        }
        let ghost before = fns@;
        match pub_fn_of_line(lines[k].as_str()) {
            Some(name) => {
                fns.push(name);
                proof {
                    assert(names_view(fns@) =~= names_view(before).push(fns@[fns@.len() - 1]@));
                }
            },
            None => {},
        }
        k = k + 1;
    }
    proof {
        assert(ls.take(lines@.len() as int) =~= ls);
    }
    fns
}

// ───────────────────────────── references ─────────────────────────────

/// A byte that can continue an identifier: an ASCII letter or digit, or `_`.
pub open spec fn word_byte(b: u8) -> bool {
    (0x30 <= b <= 0x39) || (0x41 <= b <= 0x5A) || (0x61 <= b <= 0x7A) || b == 0x5F
}

/// A match of length `len` at `pos` stands as a whole word: no identifier
/// byte touches it on either side.
pub open spec fn whole_word_at(h: Seq<u8>, pos: int, len: int) -> bool {
    &&& (pos == 0 || !word_byte(h[pos - 1]))
    &&& (pos + len >= h.len() || !word_byte(h[pos + len]))
}

/// Start positions of the matches of `n` in `h` from `from` on, left to right
/// and not overlapping (a non-empty `n`).
pub open spec fn match_positions(h: Seq<u8>, n: Seq<u8>, from: int) -> Seq<int>
    decreases h.len() - from,
{
    if n.len() == 0 || from < 0 || from + n.len() > h.len() {
        Seq::empty()
    } else if h.subrange(from, from + n.len()) == n {
        seq![from].add(match_positions(h, n, from + n.len()))
    } else {
        match_positions(h, n, from + 1)
    }
}

/// A position of `h` that starts a character (or is its end).
pub open spec fn char_start(h: Seq<u8>, p: int) -> bool {
    p == h.len() || h[p] < 0x80 || h[p] >= 0xC0
}

/// Positions where the empty pattern matches from `from` on: every
/// character boundary.
pub open spec fn boundary_positions(h: Seq<u8>, from: int) -> Seq<int>
    decreases h.len() + 1 - from,
{
    if from < 0 || from > h.len() {
        Seq::empty()
    } else if char_start(h, from) {
        seq![from].add(boundary_positions(h, from + 1))
    } else {
        boundary_positions(h, from + 1)
    }
}

/// Number of the positions in `ps` where a match of length `len` is a whole word.
pub open spec fn whole_words(h: Seq<u8>, len: int, ps: Seq<int>) -> nat
    decreases ps.len(),
{
    if ps.len() == 0 {
        0
    } else {
        whole_words(h, len, ps.drop_first()) + if whole_word_at(h, ps[0], len) {
            1nat
        } else {
            0nat
        }
    }
}

/// Number of whole-word occurrences of `n` in `h`, counting the matches of
/// `str::match_indices` (on UTF-8 text, a byte match of a UTF-8 pattern
/// always starts at a character boundary).
pub open spec fn reference_count(h: Seq<u8>, n: Seq<u8>) -> nat {
    if n.len() == 0 {
        whole_words(h, 0, boundary_positions(h, 0))
    } else {
        whole_words(h, n.len() as int, match_positions(h, n, 0))
    }
}

fn word_byte_at(h: &Vec<u8>, i: usize) -> (r: bool)
    requires
        i < h@.len(),
    ensures
        r == word_byte(h@[i as int]),
{
    let b = h[i];
    (0x30 <= b && b <= 0x39) || (0x41 <= b && b <= 0x5A) || (0x61 <= b && b <= 0x7A) || b == 0x5F
}

fn whole_word(h: &Vec<u8>, pos: usize, len: usize) -> (r: bool)
    requires
        h@.len() <= isize::MAX,
        pos <= h@.len(),
        pos + len <= h@.len(),
    ensures
        r == whole_word_at(h@, pos as int, len as int),
{
    let before_ok = pos == 0 || !word_byte_at(h, pos - 1);
    let after = pos + len;
    let after_ok = after >= h.len() || !word_byte_at(h, after);
    before_ok && after_ok
}

fn matches_at(h: &Vec<u8>, n: &Vec<u8>, pos: usize) -> (r: bool)
    requires
        h@.len() <= isize::MAX,
        pos + n@.len() <= h@.len(),
    ensures
        r == (h@.subrange(pos as int, pos + n@.len()) == n@),
{
    let m = n.len();
    let mut j: usize = 0;
    while j < m
        invariant
            m == n@.len(),
            h@.len() <= isize::MAX,
            pos + m <= h@.len(),
            j <= m,
            forall|q: int| 0 <= q < j ==> h@[pos + q] == n@[q],
        decreases m - j,
    {
        if h[pos + j] != n[j] {
            proof {
                assert(h@.subrange(pos as int, pos + m)[j as int] != n@[j as int]);
            }
            return false;
        }
        j = j + 1;
    }
    proof {
        assert(h@.subrange(pos as int, pos + m) =~= n@);
    }
    true
}

/// Number of whole-word references to `symbol` in `content` (see
/// [`reference_count`]).
pub fn count_references(content: &str, symbol: &str) -> (r: usize)
    ensures
        r == reference_count(content.spec_bytes(), symbol.spec_bytes()),
{
    let h = bytes_of(content);
    let n = bytes_of(symbol);
    let hl = h.len();
    let m = n.len();
    let mut count: usize = 0;
    if m == 0 {
        let mut p: usize = 0;
        while p <= hl
            invariant
                hl == h@.len(),
                hl <= isize::MAX,
                m == 0,
                n@.len() == 0,
                p <= hl + 1,
                count <= p,
                count + whole_words(h@, 0, boundary_positions(h@, p as int)) == reference_count(h@, n@),
            decreases hl + 1 - p,
        {
            let ghost before = count;
            let start = p == hl || h[p] < 0x80 || h[p] >= 0xC0;
            if start {
                if whole_word(&h, p, 0) {
                    count = count + 1;
                }
                proof {
                    let ps = boundary_positions(h@, p as int);
                    assert(ps == seq![p as int].add(boundary_positions(h@, p + 1)));
                    assert(ps.drop_first() =~= boundary_positions(h@, p + 1));
                }
            } else {
                proof {
                    assert(boundary_positions(h@, p as int) == boundary_positions(h@, p + 1));
                }
            }
            p = p + 1;
        }
        return count;
    }
    let mut from: usize = 0;
    while from + m <= hl
        invariant
            hl == h@.len(),
            hl <= isize::MAX,
            m == n@.len(),
            m <= isize::MAX,
            m > 0,
            from <= hl,
            count <= from,
            count + whole_words(h@, m as int, match_positions(h@, n@, from as int)) == reference_count(h@, n@),
        decreases hl - from,
    {
        if matches_at(&h, &n, from) {
            if whole_word(&h, from, m) {
                count = count + 1;
            }
            proof {
                let ps = match_positions(h@, n@, from as int);
                assert(ps == seq![from as int].add(match_positions(h@, n@, from + m)));
                assert(ps.drop_first() =~= match_positions(h@, n@, from + m));
            }
            from = from + m;
        } else {
            proof {
                assert(match_positions(h@, n@, from as int) == match_positions(h@, n@, from + 1));
            }
            from = from + 1;
        }
    }
    count
}


// ───────────────────────────── the report ─────────────────────────────

/// Which ring a public function is expected to reach.
#[derive(Debug, Clone, Copy, PartialEq, Eq, Structural)]
pub enum SymbolClass {
    /// Must be used by the command line or the chain registry (ring 2).
    Feature,
    /// Must be used by a sibling module (ring 1).
    Library,
    /// Not classified by the configuration.
    Unclassified,
}

/// How far out a public function is used.
#[derive(Debug, Clone, Copy, PartialEq, Eq, PartialOrd, Ord, Structural)]
pub enum Ring {
    /// Only by the module's own tests.
    Ring0,
    /// By sibling modules.
    Ring1,
    /// By command-line handlers or the chain registry.
    Ring2,
}

/// The patrol's judgement on one function.
#[derive(Debug, Clone, Copy, PartialEq, Eq, Structural)]
pub enum PatrolVerdict {
    /// Reaches its expected ring (`Ok` in the report's wording).
    Passed,
    /// A feature short of ring 2, or a library function at ring 0.
    Unwired,
    /// Unclassified and used only at ring 0.
    Unclassified,
    /// Classified by the configuration but not declared anywhere.
    StaleConfig,
}

/// One function the patrol looked at.
#[derive(Debug, Clone)]
pub struct PatrolFinding {
    pub symbol: String,
    pub classification: SymbolClass,
    pub actual_ring: Ring,
    pub expected_ring: Ring,
    pub verdict: PatrolVerdict,
}

/// The whole patrol: counts by verdict and every finding.
#[derive(Debug, Clone)]
pub struct PatrolReport {
    pub clean: bool,
    pub total_symbols: usize,
    pub ok: usize,
    pub unwired: usize,
    pub unclassified: usize,
    pub stale: usize,
    pub findings: Vec<PatrolFinding>,
}

/// A finding as plain values.
pub type PatrolView = (Seq<char>, SymbolClass, Ring, Ring, PatrolVerdict);

impl PatrolFinding {
    /// This finding as plain values.
    pub open spec fn view_of(self) -> PatrolView {
        (self.symbol@, self.classification, self.actual_ring, self.expected_ring, self.verdict)
    }
}

/// Plain values of some findings.
pub open spec fn patrol_views(fs: Seq<PatrolFinding>) -> Seq<PatrolView> {
    fs.map_values(|f: PatrolFinding| f.view_of())
}

/// Whole-word references to `sym` in the text `content`.
pub open spec fn refs_in(content: Seq<char>, sym: Seq<char>) -> nat {
    reference_count(encode_utf8(content), encode_utf8(sym))
}

/// The ring a function reaches: 2 when ring-2 code refers to it, else 1 when
/// ring-1 code does, else 0.
pub open spec fn ring_reached(ring1: Seq<char>, ring2: Seq<char>, sym: Seq<char>) -> Ring {
    if refs_in(ring2, sym) > 0 {
        Ring::Ring2
    } else if refs_in(ring1, sym) > 0 {
        Ring::Ring1
    } else {
        Ring::Ring0
    }
}

/// The class of a function under the configuration.
pub open spec fn class_of(features: Seq<Seq<char>>, library: Seq<Seq<char>>, sym: Seq<char>) -> SymbolClass {
    if features.contains(sym) {
        SymbolClass::Feature
    } else if library.contains(sym) {
        SymbolClass::Library
    } else {
        SymbolClass::Unclassified
    }
}

/// The ring a class must reach (ring 1 for an unclassified re-export).
pub open spec fn ring_expected(c: SymbolClass) -> Ring {
    match c {
        SymbolClass::Feature => Ring::Ring2,
        _ => Ring::Ring1,
    }
}

/// The verdict on a function of class `c` that reaches `actual`.
pub open spec fn verdict_for(c: SymbolClass, actual: Ring) -> PatrolVerdict {
    match c {
        SymbolClass::Feature => if actual == Ring::Ring2 {
            PatrolVerdict::Passed
        } else {
            PatrolVerdict::Unwired
        },
        SymbolClass::Library => if actual == Ring::Ring0 {
            PatrolVerdict::Unwired
        } else {
            PatrolVerdict::Passed
        },
        SymbolClass::Unclassified => if actual == Ring::Ring0 {
            PatrolVerdict::Unclassified
        } else {
            PatrolVerdict::Passed
        },
    }
}

/// The finding on a re-exported function.
pub open spec fn symbol_finding(
    ring1: Seq<char>,
    ring2: Seq<char>,
    features: Seq<Seq<char>>,
    library: Seq<Seq<char>>,
    sym: Seq<char>,
) -> PatrolView {
    let actual = ring_reached(ring1, ring2, sym);
    let c = class_of(features, library, sym);
    (sym, c, actual, ring_expected(c), verdict_for(c, actual))
}

/// The names of `s`, each once, in order of first appearance.
pub open spec fn distinct_in_order(s: Seq<Seq<char>>) -> Seq<Seq<char>>
    decreases s.len(),
{
    if s.len() == 0 {
        Seq::empty()
    } else {
        let p = distinct_in_order(s.drop_last());
        if p.contains(s[s.len() - 1]) {
            p
        } else {
            p.push(s[s.len() - 1])
        }
    }
}

/// Findings on configured names that no source declares.
pub open spec fn stale_views(names: Seq<Seq<char>>, pub_fns: Seq<Seq<char>>, features: Seq<Seq<char>>) -> Seq<PatrolView>
    decreases names.len(),
{
    if names.len() == 0 {
        Seq::empty()
    } else {
        let p = stale_views(names.drop_last(), pub_fns, features);
        let n = names[names.len() - 1];
        if pub_fns.contains(n) {
            p
        } else {
            let c = if features.contains(n) {
                SymbolClass::Feature
            } else {
                SymbolClass::Library
            };
            p.push((n, c, Ring::Ring0, Ring::Ring0, PatrolVerdict::StaleConfig))
        }
    }
}

/// Number of findings with verdict `v`.
pub open spec fn verdict_count(fs: Seq<PatrolView>, v: PatrolVerdict) -> nat
    decreases fs.len(),
{
    if fs.len() == 0 {
        0
    } else {
        verdict_count(fs.drop_last(), v) + if fs[fs.len() - 1].4 == v {
            1nat
        } else {
            0nat
        }
    }
}

/// A function is re-exported when it is declared and the module root
/// refers to it.
pub open spec fn is_reexported(pub_fns: Seq<Seq<char>>, mod_content: Seq<char>, n: Seq<char>) -> bool {
    pub_fns.contains(n) && refs_in(mod_content, n) > 0
}

/// What the patrol reports. The re-exported functions come first, sorted
/// and each once, then the stale configuration entries (features, then
/// library names, each once, in configuration order).
pub open spec fn is_patrol_report(
    pub_fns: Seq<Seq<char>>,
    mod_content: Seq<char>,
    ring1: Seq<char>,
    ring2: Seq<char>,
    features: Seq<Seq<char>>,
    library: Seq<Seq<char>>,
    r: PatrolReport,
) -> bool {
    let fs = patrol_views(r.findings@);
    let stale = stale_views(distinct_in_order(features) + distinct_in_order(library), pub_fns, features);
    let n = fs.len() - stale.len();
    let syms = fs.take(n).map_values(|f: PatrolView| f.0);
    &&& n >= 0
    &&& fs.skip(n) == stale
    &&& strictly_sorted(syms)
    &&& forall|x: Seq<char>| #[trigger] syms.contains(x) <==> is_reexported(pub_fns, mod_content, x)
    &&& forall|i: int| 0 <= i < n ==> #[trigger] fs[i] == symbol_finding(ring1, ring2, features, library, syms[i])
    &&& r.total_symbols == fs.len()
    &&& r.ok == verdict_count(fs, PatrolVerdict::Passed)
    &&& r.unwired == verdict_count(fs, PatrolVerdict::Unwired)
    &&& r.unclassified == verdict_count(fs, PatrolVerdict::Unclassified)
    &&& r.stale == stale.len()
    &&& r.clean == (r.unwired == 0 && r.unclassified == 0 && r.stale == 0)
}

/// Insert `x` into a strictly sorted list of names unless it is there.
fn insert_sorted(v: &mut Vec<String>, x: String)
    requires
        strictly_sorted(names_view(old(v)@)),
    ensures
        strictly_sorted(names_view(final(v)@)),
        forall|y: Seq<char>| #[trigger] names_view(final(v)@).contains(y) <==> (names_view(old(v)@).contains(y) || y == x@),
{
    let ghost ov = names_view(v@);
    let mut i: usize = 0;
    while i < v.len() && text_less(v[i].as_str(), x.as_str())
        invariant
            ov == names_view(v@),
            i <= v@.len(),
            forall|j: int| 0 <= j < i ==> text_lt(#[trigger] ov[j], x@),
        decreases v@.len() - i,
    {
        i = i + 1;
    }
    if i < v.len() && crate::value::str_eq(v[i].as_str(), x.as_str()) {
        proof {
            assert(ov[i as int] == x@);
            assert forall|y: Seq<char>| #[trigger] names_view(v@).contains(y) <==> (ov.contains(y) || y == x@) by {
                if y == x@ {
                    assert(names_view(v@)[i as int] == y);
                }
            }
        }
        return;
    }
    proof {
        if i < v@.len() {
            lemma_text_lt_total(ov[i as int], x@);
        }
    }
    v.insert(i, x);
    proof {
        let nv = names_view(v@);
        assert(nv =~= ov.take(i as int).push(x@) + ov.skip(i as int));
        assert forall|a: int, b: int| 0 <= a < b < nv.len() implies text_lt(#[trigger] nv[a], #[trigger] nv[b]) by {
            if b < i {
                assert(nv[a] == ov[a] && nv[b] == ov[b]);
            } else if b == i {
                assert(nv[a] == ov[a]);
            } else if a == i {
                assert(nv[b] == ov[b - 1]);
                if b - 1 > i {
                    assert(text_lt(ov[i as int], ov[b - 1]));
                    lemma_text_lt_transitive(x@, ov[i as int], ov[b - 1]);
                }
            } else if a < i {
                assert(nv[a] == ov[a] && nv[b] == ov[b - 1]);
                assert(text_lt(ov[a], x@));
                if b - 1 == i {
                    lemma_text_lt_transitive(ov[a], x@, ov[b - 1]);
                } else {
                    assert(text_lt(ov[i as int], ov[b - 1]));
                    lemma_text_lt_transitive(x@, ov[i as int], ov[b - 1]);
                    lemma_text_lt_transitive(ov[a], x@, ov[b - 1]);
                }
            } else {
                assert(nv[a] == ov[a - 1] && nv[b] == ov[b - 1]);
            }
        }
        assert forall|y: Seq<char>| #[trigger] nv.contains(y) <==> (ov.contains(y) || y == x@) by {
            if nv.contains(y) {
                let k = choose|k: int| 0 <= k < nv.len() && nv[k] == y;
                if k < i {
                    assert(ov[k] == y);
                } else if k > i {
                    assert(ov[k - 1] == y);
                }
            }
            if ov.contains(y) {
                let k = choose|k: int| 0 <= k < ov.len() && ov[k] == y;
                if k < i {
                    assert(nv[k] == y);
                } else {
                    assert(nv[k + 1] == y);
                }
            }
            if y == x@ {
                assert(nv[i as int] == y);
            }
        }
    }
}


/// The names of `v`, each once, in order of first appearance.
fn distinct_names(v: &Vec<String>) -> (r: Vec<String>)
    ensures
        names_view(r@) == distinct_in_order(names_view(v@)),
{
    let ghost vs = names_view(v@);
    let mut r: Vec<String> = Vec::new();
    let mut i: usize = 0;
    while i < v.len()
        invariant
            vs == names_view(v@),
            i <= v@.len(),
            names_view(r@) == distinct_in_order(vs.take(i as int)),
        decreases v@.len() - i,
    {
        proof {
            assert(vs.take(i + 1).drop_last() =~= vs.take(i as int));
            assert(vs[i as int] == v@[i as int]@);
        }
        if !contains_name(r.as_slice(), v[i].as_str()) {
            let ghost before = r@;
            r.push(v[i].clone());
            proof {
                assert(names_view(r@) =~= names_view(before).push(vs[i as int]));
            }
        }
        i = i + 1;
    }
    proof {
        assert(vs.take(v@.len() as int) =~= vs);
    }
    r
}

/// The finding on one re-exported function, computed.
fn finding_for(ring1: &str, ring2: &str, features: &Vec<String>, library: &Vec<String>, sym: &String) -> (f: PatrolFinding)
    ensures
        f.view_of() == symbol_finding(ring1@, ring2@, names_view(features@), names_view(library@), sym@),
{
    let r2 = count_references(ring2, sym.as_str());
    let r1 = count_references(ring1, sym.as_str());
    let actual_ring = if r2 > 0 {
        Ring::Ring2
    } else if r1 > 0 {
        Ring::Ring1
    } else {
        Ring::Ring0
    };
    let classification = if contains_name(features.as_slice(), sym.as_str()) {
        SymbolClass::Feature
    } else if contains_name(library.as_slice(), sym.as_str()) {
        SymbolClass::Library
    } else {
        SymbolClass::Unclassified
    };
    let expected_ring = match classification {
        SymbolClass::Feature => Ring::Ring2,
        _ => Ring::Ring1,
    };
    let verdict = match classification {
        SymbolClass::Feature => match actual_ring {
            Ring::Ring2 => PatrolVerdict::Passed,
            _ => PatrolVerdict::Unwired,
        },
        SymbolClass::Library => match actual_ring {
            Ring::Ring0 => PatrolVerdict::Unwired,
            _ => PatrolVerdict::Passed,
        },
        SymbolClass::Unclassified => match actual_ring {
            Ring::Ring0 => PatrolVerdict::Unclassified,
            _ => PatrolVerdict::Passed,
        },
    };
    PatrolFinding { symbol: sym.clone(), classification, actual_ring, expected_ring, verdict }
}

/// The patrol over a module, given the public free functions declared in its
/// files, the text of its root (`mod.rs`), the text of the sibling modules
/// (test blocks stripped), the text of the ring-2 consumers, and the feature
/// and library names of the configuration. The functions that the root
/// refers to are checked, in sorted order; then every configured name that
/// no file declares is reported as stale.
pub fn patrol_report(
    pub_fns: &Vec<String>,
    mod_content: &str,
    ring1_content: &str,
    ring2_content: &str,
    features: &Vec<String>,
    library: &Vec<String>,
) -> (r: PatrolReport)
    ensures
        is_patrol_report(
            names_view(pub_fns@),
            mod_content@,
            ring1_content@,
            ring2_content@,
            names_view(features@),
            names_view(library@),
            r,
        ),
{
    let ghost pf = names_view(pub_fns@);
    let ghost fe = names_view(features@);
    let ghost li = names_view(library@);
    // the re-exported functions, sorted, each once
    let mut syms: Vec<String> = Vec::new();
    let mut i: usize = 0;
    while i < pub_fns.len()
        invariant
            pf == names_view(pub_fns@),
            i <= pub_fns@.len(),
            strictly_sorted(names_view(syms@)),
            forall|x: Seq<char>| #[trigger] names_view(syms@).contains(x) <==> (pf.take(i as int).contains(x) && refs_in(mod_content@, x) > 0),
        decreases pub_fns@.len() - i,
    {
        let ghost before = names_view(syms@);
        proof {
            assert(pf[i as int] == pub_fns@[i as int]@);
            assert(pf.take(i + 1) =~= pf.take(i as int).push(pf[i as int]));
        }
        let c = count_references(mod_content, pub_fns[i].as_str());
        proof {
            assert(c == refs_in(mod_content@, pf[i as int]));
        }
        if c > 0 {
            insert_sorted(&mut syms, pub_fns[i].clone());
        }
        proof {
            assert forall|x: Seq<char>| #[trigger] names_view(syms@).contains(x) <==> (pf.take(i + 1).contains(x) && refs_in(mod_content@, x) > 0) by {
                assert(before.contains(x) == (pf.take(i as int).contains(x) && refs_in(mod_content@, x) > 0));
                if x == pf[i as int] {
                    assert(pf.take(i + 1)[i as int] == x);
                }
                if pf.take(i + 1).contains(x) && !pf.take(i as int).contains(x) {
                    let k = choose|k: int| 0 <= k < i + 1 && #[trigger] pf.take(i + 1)[k] == x;
                    if k < i {
                        assert(pf.take(i as int)[k] == x);
                    }
                }
                if pf.take(i as int).contains(x) {
                    let k = choose|k: int| 0 <= k < i && #[trigger] pf.take(i as int)[k] == x;
                    assert(pf.take(i + 1)[k] == x);
                }
            }
        }
        i = i + 1;
    }
    proof {
        assert(pf.take(pub_fns@.len() as int) =~= pf);
    }
    let ghost sv = names_view(syms@);
    // one finding per function
    let mut findings: Vec<PatrolFinding> = Vec::new();
    let mut ok: usize = 0;
    let mut unwired: usize = 0;
    let mut unclassified: usize = 0;
    let mut k: usize = 0;
    while k < syms.len()
        invariant
            sv == names_view(syms@),
            fe == names_view(features@),
            li == names_view(library@),
            k <= syms@.len(),
            patrol_views(findings@) == sv.take(k as int).map_values(
                |x: Seq<char>| symbol_finding(ring1_content@, ring2_content@, fe, li, x),
            ),
            ok == verdict_count(patrol_views(findings@), PatrolVerdict::Passed),
            unwired == verdict_count(patrol_views(findings@), PatrolVerdict::Unwired),
            unclassified == verdict_count(patrol_views(findings@), PatrolVerdict::Unclassified),
            ok + unwired + unclassified <= k,
        decreases syms@.len() - k,
    {
        let f = finding_for(ring1_content, ring2_content, features, library, &syms[k]);
        let ghost before = patrol_views(findings@);
        match f.verdict {
            PatrolVerdict::Passed => ok = ok + 1,
            PatrolVerdict::Unwired => unwired = unwired + 1,
            PatrolVerdict::Unclassified => unclassified = unclassified + 1,
            PatrolVerdict::StaleConfig => {},
        }
        findings.push(f);
        proof {
            assert(patrol_views(findings@) =~= before.push(f.view_of()));
            assert(patrol_views(findings@).drop_last() =~= before);
            assert(sv.take(k + 1) =~= sv.take(k as int).push(sv[k as int]));
            assert(patrol_views(findings@) =~= sv.take(k + 1).map_values(
                |x: Seq<char>| symbol_finding(ring1_content@, ring2_content@, fe, li, x),
            ));
        }
        k = k + 1;
    }
    let ghost sym_part = patrol_views(findings@);
    proof {
        assert(sv.take(syms@.len() as int) =~= sv);
    }
    // stale configuration entries
    let mut cfg = distinct_names(features);
    let mut lib = distinct_names(library);
    cfg.append(&mut lib);
    let ghost cv = names_view(cfg@);
    proof {
        assert(cv =~= distinct_in_order(fe) + distinct_in_order(li));
    }
    let mut stale: usize = 0;
    let mut j: usize = 0;
    while j < cfg.len()
        invariant
            cv == names_view(cfg@),
            pf == names_view(pub_fns@),
            fe == names_view(features@),
            j <= cfg@.len(),
            patrol_views(findings@) == sym_part + stale_views(cv.take(j as int), pf, fe),
            stale == stale_views(cv.take(j as int), pf, fe).len(),
            stale <= j,
            sym_part.len() == sv.len(),
            sv.len() <= usize::MAX,
            ok == verdict_count(patrol_views(findings@), PatrolVerdict::Passed),
            unwired == verdict_count(patrol_views(findings@), PatrolVerdict::Unwired),
            unclassified == verdict_count(patrol_views(findings@), PatrolVerdict::Unclassified),
        decreases cfg@.len() - j,
    {
        proof {
            assert(cv.take(j + 1).drop_last() =~= cv.take(j as int));
            assert(cv[j as int] == cfg@[j as int]@);
        }
        if !contains_name(pub_fns.as_slice(), cfg[j].as_str()) {
            let classification = if contains_name(features.as_slice(), cfg[j].as_str()) {
                SymbolClass::Feature
            } else {
                SymbolClass::Library
            };
            let f = PatrolFinding {
                symbol: cfg[j].clone(),
                classification,
                actual_ring: Ring::Ring0,
                expected_ring: Ring::Ring0,
                verdict: PatrolVerdict::StaleConfig,
            };
            let ghost before = patrol_views(findings@);
            findings.push(f);
            stale = stale + 1;
            proof {
                assert(patrol_views(findings@) =~= before.push(f.view_of()));
                assert(patrol_views(findings@).drop_last() =~= before);
                assert(patrol_views(findings@) =~= sym_part + stale_views(cv.take(j + 1), pf, fe));
            }
        }
        j = j + 1;
    }
    proof {
        assert(cv.take(cfg@.len() as int) =~= cv);
        let fs = patrol_views(findings@);
        let st = stale_views(distinct_in_order(fe) + distinct_in_order(li), pf, fe);
        assert(fs.take(sym_part.len() as int) =~= sym_part);
        assert(fs.skip(sym_part.len() as int) =~= st);
        assert(sym_part.map_values(|f: PatrolView| f.0) =~= sv);
    }
    let clean = unwired == 0 && unclassified == 0 && stale == 0;
    PatrolReport { clean, total_symbols: findings.len(), ok, unwired, unclassified, stale, findings }
}

} // verus!
