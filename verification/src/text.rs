//! Character-level helpers shared by the line scanners and parsers.

use vstd::prelude::*;

verus! {

/// Appends one character to a string (`String::push`).
#[verifier::external_body]
pub(crate) fn string_push(s: &mut String, c: char)
    ensures
        final(s)@ == old(s)@.push(c),
{
    s.push(c);
}

/// The characters of `s`, in order.
pub fn str_chars(s: &str) -> (v: Vec<char>)
    ensures
        v@ == s@,
{
    let mut v: Vec<char> = Vec::new();
    for c in it: s.chars()
        invariant
            v@ == it.seq().take(it.index()),
            it.seq() == s@,
    {
        v.push(c);
    }
    v
}

/// A string holding exactly the given characters.
pub fn string_from_chars(cs: &[char]) -> (s: String)
    ensures
        s@ == cs@,
{
    let mut s = String::new();
    let mut i: usize = 0;
    while i < cs.len()
        invariant
            i <= cs.len(),
            s@ == cs@.take(i as int),
        decreases cs.len() - i,
    {
        string_push(&mut s, cs[i]);
        assert(cs@.take(i as int).push(cs@[i as int]) =~= cs@.take(i + 1));
        i += 1;
    }
    assert(cs@.take(cs.len() as int) =~= cs@);
    s
}

} // verus!

verus! {

/// Unicode `White_Space`, the property that `char::is_whitespace` tests.
pub open spec fn is_ws(c: char) -> bool {
    ||| ('\u{9}' <= c && c <= '\u{d}')
    ||| c == ' '
    ||| c == '\u{85}'
    ||| c == '\u{a0}'
    ||| c == '\u{1680}'
    ||| ('\u{2000}' <= c && c <= '\u{200a}')
    ||| c == '\u{2028}'
    ||| c == '\u{2029}'
    ||| c == '\u{202f}'
    ||| c == '\u{205f}'
    ||| c == '\u{3000}'
}

pub fn is_whitespace(c: char) -> (b: bool)
    ensures
        b == is_ws(c),
{
    ('\u{9}' <= c && c <= '\u{d}') || c == ' ' || c == '\u{85}' || c == '\u{a0}' || c == '\u{1680}'
        || ('\u{2000}' <= c && c <= '\u{200a}') || c == '\u{2028}' || c == '\u{2029}' || c
        == '\u{202f}' || c == '\u{205f}' || c == '\u{3000}'
}

pub open spec fn is_digit(c: char) -> bool {
    '0' <= c && c <= '9'
}

pub open spec fn digit_value(c: char) -> nat {
    (c as int - '0' as int) as nat
}

/// Decimal digit character for `d < 10`.
pub open spec fn digit_char(d: nat) -> char {
    ((d + 48) as u8) as char
}

} // verus!

verus! {

// ----- trimming -------------------------------------------------------------

/// `s` without its leading white space.
pub open spec fn trim_start(s: Seq<char>) -> Seq<char>
    decreases s.len(),
{
    if s.len() > 0 && is_ws(s[0]) {
        trim_start(s.drop_first())
    } else {
        s
    }
}

/// `s` without its trailing white space.
pub open spec fn trim_end(s: Seq<char>) -> Seq<char>
    decreases s.len(),
{
    if s.len() > 0 && is_ws(s.last()) {
        trim_end(s.drop_last())
    } else {
        s
    }
}

/// `str::trim`: leading and trailing white space removed.
pub open spec fn trim(s: Seq<char>) -> Seq<char> {
    trim_end(trim_start(s))
}

proof fn trim_start_at(s: Seq<char>) -> (i: int)
    ensures
        0 <= i <= s.len(),
        trim_start(s) == s.skip(i),
    decreases s.len(),
{
    if s.len() > 0 && is_ws(s[0]) {
        let j = trim_start_at(s.drop_first());
        assert(s.drop_first().skip(j) =~= s.skip(j + 1));
        j + 1
    } else {
        assert(s.skip(0) =~= s);
        0
    }
}

proof fn trim_end_at(s: Seq<char>) -> (j: int)
    ensures
        0 <= j <= s.len(),
        trim_end(s) == s.take(j),
    decreases s.len(),
{
    if s.len() > 0 && is_ws(s.last()) {
        let j = trim_end_at(s.drop_last());
        assert(s.drop_last().take(j) =~= s.take(j));
        j
    } else {
        assert(s.take(s.len() as int) =~= s);
        s.len() as int
    }
}

/// Where `trim(s)` stands in `s`.
pub proof fn trim_bounds(s: Seq<char>) -> (r: (int, int))
    ensures
        0 <= r.0 <= r.1 <= s.len(),
        trim(s) == s.subrange(r.0, r.1),
{
    let i = trim_start_at(s);
    let j = trim_end_at(s.skip(i));
    assert(s.skip(i).take(j) =~= s.subrange(i, i + j));
    (i, i + j)
}

proof fn lemma_trim_start_skip(s: Seq<char>, i: int)
    requires
        0 <= i <= s.len(),
        forall|k: int| 0 <= k < i ==> is_ws(#[trigger] s[k]),
        i == s.len() || !is_ws(s[i]),
    ensures
        trim_start(s) == s.skip(i),
    decreases i,
{
    if i == 0 {
        assert(s.skip(0) =~= s);
    } else {
        lemma_trim_start_skip(s.drop_first(), i - 1);
        assert(s.drop_first().skip(i - 1) =~= s.skip(i));
    }
}

proof fn lemma_trim_end_take(s: Seq<char>, j: int)
    requires
        0 <= j <= s.len(),
        forall|k: int| j <= k < s.len() ==> is_ws(#[trigger] s[k]),
        j == 0 || !is_ws(s[j - 1]),
    ensures
        trim_end(s) == s.take(j),
    decreases s.len() - j,
{
    if j == s.len() {
        assert(s.take(j) =~= s);
    } else {
        lemma_trim_end_take(s.drop_last(), j);
        assert(s.drop_last().take(j) =~= s.take(j));
    }
}

/// A copy of `s[lo..hi]`.
pub fn copy_range(s: &[char], lo: usize, hi: usize) -> (r: Vec<char>)
    requires
        lo <= hi <= s@.len(),
    ensures
        r@ == s@.subrange(lo as int, hi as int),
{
    let mut r: Vec<char> = Vec::new();
    let mut i = lo;
    while i < hi
        invariant
            lo <= i <= hi <= s@.len(),
            r@ == s@.subrange(lo as int, i as int),
        decreases hi - i,
    {
        r.push(s[i]);
        assert(s@.subrange(lo as int, i as int).push(s@[i as int]) =~= s@.subrange(
            lo as int,
            i + 1,
        ));
        i += 1;
    }
    r
}

/// `str::trim` on a character sequence.
pub fn trim_chars(s: &[char]) -> (r: Vec<char>)
    ensures
        r@ == trim(s@),
{
    let mut i: usize = 0;
    while i < s.len() && is_whitespace(s[i])
        invariant
            i <= s@.len(),
            forall|k: int| 0 <= k < i ==> is_ws(#[trigger] s@[k]),
        decreases s.len() - i,
    {
        i += 1;
    }
    proof {
        lemma_trim_start_skip(s@, i as int);
    }
    let mut j: usize = s.len();
    while j > i && is_whitespace(s[j - 1])
        invariant
            i <= j <= s@.len(),
            forall|k: int| j <= k < s@.len() ==> is_ws(#[trigger] s@[k]),
        decreases j,
    {
        j -= 1;
    }
    let ghost t = s@.skip(i as int);
    proof {
        assert forall|k: int| j - i <= k < t.len() implies is_ws(#[trigger] t[k]) by {
            assert(t[k] == s@[k + i]);
        }
        if j - i > 0 {
            assert(t[j - i - 1] == s@[j - 1]);
        }
        lemma_trim_end_take(t, j - i);
        assert(t.take(j - i) =~= s@.subrange(i as int, j as int));
    }
    copy_range(s, i, j)
}

// ----- searching ------------------------------------------------------------

/// Index of the first `c` in `s`, if any.
pub open spec fn find_char(s: Seq<char>, c: char) -> Option<int>
    decreases s.len(),
{
    if s.len() == 0 {
        None
    } else if s[0] == c {
        Some(0)
    } else {
        match find_char(s.drop_first(), c) {
            Some(i) => Some(i + 1),
            None => None,
        }
    }
}

proof fn lemma_find_char_at(s: Seq<char>, c: char, i: int)
    requires
        0 <= i <= s.len(),
        forall|k: int| 0 <= k < i ==> #[trigger] s[k] != c,
    ensures
        i < s.len() && s[i] == c ==> find_char(s, c) == Some(i),
        i == s.len() ==> find_char(s, c) is None,
    decreases i,
{
    if i > 0 {
        lemma_find_char_at(s.drop_first(), c, i - 1);
    }
}

pub proof fn lemma_find_char_props(s: Seq<char>, c: char)
    ensures
        find_char(s, c) matches Some(i) ==> 0 <= i < s.len() && s[i] == c && forall|k: int|
            0 <= k < i ==> #[trigger] s[k] != c,
        find_char(s, c) is None ==> forall|k: int| 0 <= k < s.len() ==> #[trigger] s[k] != c,
    decreases s.len(),
{
    if s.len() > 0 {
        lemma_find_char_props(s.drop_first(), c);
        if s[0] != c {
            assert forall|k: int| 1 <= k < s.len() implies #[trigger] s[k] == s.drop_first()[k
                - 1] by {}
        }
    }
}

/// `str::find` with a single character: the first index of `c`.
pub fn find_char_exec(s: &[char], c: char) -> (r: Option<usize>)
    ensures
        match r {
            Some(i) => find_char(s@, c) == Some(i as int),
            None => find_char(s@, c) is None,
        },
{
    let mut i: usize = 0;
    while i < s.len()
        invariant
            i <= s@.len(),
            forall|k: int| 0 <= k < i ==> #[trigger] s@[k] != c,
        decreases s.len() - i,
    {
        if s[i] == c {
            proof {
                lemma_find_char_at(s@, c, i as int);
            }
            return Some(i);
        }
        i += 1;
    }
    proof {
        lemma_find_char_at(s@, c, i as int);
    }
    None
}

/// Whether `pat` occurs in `s` at position `i`.
pub open spec fn occurs_at(s: Seq<char>, pat: Seq<char>, i: int) -> bool {
    0 <= i && i + pat.len() <= s.len() && s.subrange(i, i + pat.len()) == pat
}

/// First index at or after `from` where `pat` occurs.
pub open spec fn find_seq_from(s: Seq<char>, pat: Seq<char>, from: int) -> Option<int>
    decreases s.len() + 1 - from,
{
    if from < 0 || from + pat.len() > s.len() {
        None
    } else if occurs_at(s, pat, from) {
        Some(from)
    } else {
        find_seq_from(s, pat, from + 1)
    }
}

/// `str::find` with a string pattern: the first index where `pat` occurs.
pub open spec fn find_seq(s: Seq<char>, pat: Seq<char>) -> Option<int> {
    find_seq_from(s, pat, 0)
}

pub fn occurs_at_exec(s: &[char], pat: &[char], i: usize) -> (b: bool)
    ensures
        b == occurs_at(s@, pat@, i as int),
{
    if i > s.len() || pat.len() > s.len() - i {
        return false;
    }
    let mut k: usize = 0;
    while k < pat.len()
        invariant
            i + pat@.len() <= s@.len(),
            i <= s@.len(),
            k <= pat@.len(),
            forall|m: int| 0 <= m < k ==> s@[i + m] == #[trigger] pat@[m],
        decreases pat.len() - k,
    {
        assert(i + k < s.len());
        if s[i + k] != pat[k] {
            assert(s@.subrange(i as int, i + pat@.len())[k as int] != pat@[k as int]);
            return false;
        }
        k += 1;
    }
    assert(s@.subrange(i as int, i + pat@.len()) =~= pat@);
    true
}

pub fn find_seq_exec(s: &[char], pat: &[char]) -> (r: Option<usize>)
    ensures
        match r {
            Some(i) => find_seq(s@, pat@) == Some(i as int) && i + pat@.len() <= s@.len(),
            None => find_seq(s@, pat@) is None,
        },
{
    let mut i: usize = 0;
    while i <= s.len()
        invariant
            i <= s@.len() + 1,
            find_seq(s@, pat@) == find_seq_from(s@, pat@, i as int),
        decreases s.len() + 1 - i,
    {
        if pat.len() > s.len() - i {
            return None;
        }
        if occurs_at_exec(s, pat, i) {
            return Some(i);
        }
        if i == s.len() {
            assert(find_seq_from(s@, pat@, i + 1) is None);
            return None;
        }
        i += 1;
    }
    None
}

/// `s` with the prefix `pat` removed, when `s` starts with it.
pub open spec fn strip_prefix(s: Seq<char>, pat: Seq<char>) -> Option<Seq<char>> {
    if occurs_at(s, pat, 0) {
        Some(s.skip(pat.len() as int))
    } else {
        None
    }
}

pub open spec fn starts_with(s: Seq<char>, pat: Seq<char>) -> bool {
    occurs_at(s, pat, 0)
}

pub fn strip_prefix_exec(s: &[char], pat: &[char]) -> (r: Option<Vec<char>>)
    ensures
        match r {
            Some(v) => strip_prefix(s@, pat@) == Some(v@),
            None => strip_prefix(s@, pat@) is None,
        },
{
    if occurs_at_exec(s, pat, 0) {
        Some(copy_range(s, pat.len(), s.len()))
    } else {
        None
    }
}

pub fn starts_with_exec(s: &[char], pat: &[char]) -> (b: bool)
    ensures
        b == starts_with(s@, pat@),
{
    occurs_at_exec(s, pat, 0)
}

} // verus!

verus! {

// ----- splitting --------------------------------------------------------------

/// The views of a sequence of character vectors.
pub open spec fn views(v: Seq<Vec<char>>) -> Seq<Seq<char>> {
    v.map_values(|x: Vec<char>| x@)
}

/// `str::split` on a single character: the pieces between separators.
pub open spec fn split_on(s: Seq<char>, sep: char) -> Seq<Seq<char>>
    decreases s.len(),
{
    if s.len() == 0 {
        seq![Seq::<char>::empty()]
    } else {
        let rest = split_on(s.drop_last(), sep);
        if s.last() == sep {
            rest.push(Seq::<char>::empty())
        } else {
            rest.update(rest.len() - 1, rest.last().push(s.last()))
        }
    }
}

pub proof fn lemma_split_on_nonempty(s: Seq<char>, sep: char)
    ensures
        split_on(s, sep).len() >= 1,
    decreases s.len(),
{
    if s.len() > 0 {
        lemma_split_on_nonempty(s.drop_last(), sep);
    }
}

proof fn lemma_split_on_plain(s: Seq<char>, sep: char)
    requires
        !s.contains(sep),
    ensures
        split_on(s, sep) == seq![s],
    decreases s.len(),
{
    if s.len() > 0 {
        assert(!s.drop_last().contains(sep)) by {
            if s.drop_last().contains(sep) {
                let q = choose|q: int| 0 <= q < s.drop_last().len() && s.drop_last()[q] == sep;
                assert(s[q] == sep);
            }
        }
        lemma_split_on_plain(s.drop_last(), sep);
        assert(s.last() != sep) by {
            assert(s[s.len() - 1] == s.last());
        }
        assert(s.drop_last().push(s.last()) =~= s);
        assert(split_on(s, sep) =~= seq![s]);
    } else {
        assert(s =~= Seq::<char>::empty());
    }
}

proof fn lemma_split_on_after_sep(a: Seq<char>, b: Seq<char>, sep: char)
    requires
        !b.contains(sep),
    ensures
        split_on(a + seq![sep] + b, sep) == split_on(a, sep).push(b),
    decreases b.len(),
{
    let s = a + seq![sep] + b;
    if b.len() == 0 {
        assert(s.drop_last() =~= a);
        assert(s.last() == sep);
        assert(b =~= Seq::<char>::empty());
    } else {
        assert(!b.drop_last().contains(sep)) by {
            if b.drop_last().contains(sep) {
                let q = choose|q: int| 0 <= q < b.drop_last().len() && b.drop_last()[q] == sep;
                assert(b[q] == sep);
            }
        }
        lemma_split_on_after_sep(a, b.drop_last(), sep);
        assert(s.drop_last() =~= a + seq![sep] + b.drop_last());
        assert(s.last() == b.last());
        assert(b.last() != sep) by {
            assert(b[b.len() - 1] == b.last());
        }
        assert(b.drop_last().push(b.last()) =~= b);
        assert(split_on(s, sep) =~= split_on(a, sep).push(b));
    }
}

/// Splitting the join of nonempty-many parts, none holding the separator,
/// gives the parts back.
pub proof fn lemma_split_join(parts: Seq<Seq<char>>, sep: char)
    requires
        parts.len() > 0,
        forall|k: int| 0 <= k < parts.len() ==> !(#[trigger] parts[k]).contains(sep),
    ensures
        split_on(join(parts, sep), sep) == parts,
    decreases parts.len(),
{
    if parts.len() == 1 {
        lemma_split_on_plain(parts[0], sep);
        assert(seq![parts[0]] =~= parts);
    } else {
        let init = parts.drop_last();
        assert forall|k: int| 0 <= k < init.len() implies !(#[trigger] init[k]).contains(sep) by {
            assert(init[k] == parts[k]);
        }
        lemma_split_join(init, sep);
        assert(!parts.last().contains(sep)) by {
            assert(parts[parts.len() - 1] == parts.last());
        }
        lemma_split_on_after_sep(join(init, sep), parts.last(), sep);
        assert(init.push(parts.last()) =~= parts);
    }
}

/// Joining the pieces of a split gives back the text, and no piece holds
/// the separator.
pub proof fn lemma_join_split(s: Seq<char>, sep: char)
    ensures
        join(split_on(s, sep), sep) == s,
        forall|k: int|
            0 <= k < split_on(s, sep).len() ==> !(#[trigger] split_on(s, sep)[k]).contains(sep),
    decreases s.len(),
{
    let parts = split_on(s, sep);
    if s.len() == 0 {
        assert forall|k: int| 0 <= k < parts.len() implies !(#[trigger] parts[k]).contains(sep) by {
            assert(parts[k] =~= Seq::<char>::empty());
        }
    } else {
        let init = s.drop_last();
        let x = s.last();
        let rest = split_on(init, sep);
        lemma_join_split(init, sep);
        lemma_split_on_nonempty(init, sep);
        if x == sep {
            assert(parts == rest.push(Seq::<char>::empty()));
            assert(parts.drop_last() =~= rest);
            assert(join(parts, sep) =~= init + seq![sep] + Seq::<char>::empty());
            assert(init + seq![sep] =~= s);
            assert forall|k: int| 0 <= k < parts.len() implies !(#[trigger] parts[k]).contains(sep) by {
                if k < rest.len() {
                    assert(parts[k] == rest[k]);
                } else {
                    assert(parts[k] =~= Seq::<char>::empty());
                }
            }
        } else {
            let last = rest.last().push(x);
            assert(parts == rest.update(rest.len() - 1, last));
            if rest.len() == 1 {
                assert(join(parts, sep) == parts[0]);
                assert(join(rest, sep) == rest[0]);
                assert(init.push(x) =~= s);
            } else {
                assert(parts.drop_last() =~= rest.drop_last());
                assert(join(parts, sep) == join(rest.drop_last(), sep) + seq![sep] + last);
                assert(join(rest, sep) == join(rest.drop_last(), sep) + seq![sep] + rest.last());
                assert(join(parts, sep) =~= join(rest, sep).push(x));
                assert(init.push(x) =~= s);
            }
            assert forall|k: int| 0 <= k < parts.len() implies !(#[trigger] parts[k]).contains(sep) by {
                if k < rest.len() - 1 {
                    assert(parts[k] == rest[k]);
                } else {
                    assert(parts[k] == last);
                    assert(!rest[rest.len() - 1].contains(sep));
                    if last.contains(sep) {
                        let q = choose|q: int| 0 <= q < last.len() && last[q] == sep;
                        if q < rest.last().len() {
                            assert(rest.last()[q] == sep);
                            assert(rest[rest.len() - 1].contains(sep));
                        }
                    }
                }
            }
        }
    }
}

pub fn split_on_exec(s: &[char], sep: char) -> (r: Vec<Vec<char>>)
    ensures
        views(r@) == split_on(s@, sep),
{
    let mut pieces: Vec<Vec<char>> = Vec::new();
    let mut cur: Vec<char> = Vec::new();
    let mut i: usize = 0;
    assert(s@.take(0) =~= Seq::<char>::empty());
    assert(views(pieces@).push(cur@) =~= seq![Seq::<char>::empty()]);
    while i < s.len()
        invariant
            i <= s@.len(),
            views(pieces@).push(cur@) == split_on(s@.take(i as int), sep),
        decreases s.len() - i,
    {
        let c = s[i];
        let ghost prev = split_on(s@.take(i as int), sep);
        assert(s@.take(i + 1).drop_last() =~= s@.take(i as int));
        assert(s@.take(i + 1).last() == c);
        if c == sep {
            let done = cur;
            pieces.push(done);
            cur = Vec::new();
            assert(views(pieces@).push(cur@) =~= prev.push(Seq::<char>::empty()));
        } else {
            cur.push(c);
            assert(views(pieces@).push(cur@) =~= prev.update(
                prev.len() - 1,
                prev.last().push(c),
            ));
        }
        i += 1;
    }
    pieces.push(cur);
    assert(s@.take(s@.len() as int) =~= s@);
    pieces
}

/// A line piece without the `\r` that precedes its `\n`.
pub open spec fn strip_cr(p: Seq<char>) -> Seq<char> {
    if p.len() > 0 && p.last() == '\r' {
        p.drop_last()
    } else {
        p
    }
}

/// `str::lines`: pieces between `\n`, a final empty piece dropped, and a
/// `\r` removed where it stands before a `\n`.
pub open spec fn lines(s: Seq<char>) -> Seq<Seq<char>> {
    let parts = split_on(s, '\n');
    let kept = if parts.last().len() == 0 {
        parts.drop_last()
    } else {
        parts
    };
    Seq::new(
        kept.len(),
        |k: int|
            if k < parts.len() - 1 {
                strip_cr(kept[k])
            } else {
                kept[k]
            },
    )
}

pub fn lines_exec(s: &[char]) -> (r: Vec<Vec<char>>)
    ensures
        views(r@) == lines(s@),
{
    let parts = split_on_exec(s, '\n');
    proof {
        lemma_split_on_nonempty(s@, '\n');
    }
    let n = parts.len();
    let kept_len = if parts[n - 1].len() == 0 {
        n - 1
    } else {
        n
    };
    let mut out: Vec<Vec<char>> = Vec::new();
    let mut k: usize = 0;
    while k < kept_len
        invariant
            n == parts@.len(),
            n >= 1,
            views(parts@) == split_on(s@, '\n'),
            kept_len <= n,
            kept_len == (if parts@[n - 1]@.len() == 0 {
                n - 1
            } else {
                n as int
            }),
            k <= kept_len,
            out@.len() == k,
            forall|m: int|
                0 <= m < k ==> #[trigger] out@[m]@ == (if m < n - 1 {
                    strip_cr(parts@[m]@)
                } else {
                    parts@[m]@
                }),
        decreases kept_len - k,
    {
        let p = &parts[k];
        assert(views(parts@)[k as int] == parts@[k as int]@);
        if k < n - 1 && p.len() > 0 && p[p.len() - 1] == '\r' {
            out.push(copy_range(p, 0, p.len() - 1));
            assert(p@.subrange(0, p@.len() - 1) =~= p@.drop_last());
        } else {
            out.push(copy_range(p, 0, p.len()));
            assert(p@.subrange(0, p@.len() as int) =~= p@);
        }
        k += 1;
    }
    proof {
        let parts_v = split_on(s@, '\n');
        assert(parts_v.last() == parts@[n - 1]@);
        assert forall|m: int| 0 <= m < kept_len implies views(out@)[m] == lines(s@)[m] by {
            assert(parts_v[m] == parts@[m]@);
        }
        assert(views(out@) =~= lines(s@));
    }
    out
}

// ----- numbers ----------------------------------------------------------------

pub open spec fn all_digits(s: Seq<char>) -> bool {
    forall|k: int| 0 <= k < s.len() ==> is_digit(#[trigger] s[k])
}

/// The value of a string of decimal digits.
pub open spec fn digits_value(s: Seq<char>) -> nat
    decreases s.len(),
{
    if s.len() == 0 {
        0
    } else {
        digits_value(s.drop_last()) * 10 + digit_value(s.last())
    }
}

proof fn lemma_digits_value_prefix(s: Seq<char>, k: int)
    requires
        0 <= k <= s.len(),
    ensures
        digits_value(s.take(k)) <= digits_value(s),
    decreases s.len() - k,
{
    if k < s.len() {
        lemma_digits_value_prefix(s, k + 1);
        assert(s.take(k + 1).drop_last() =~= s.take(k));
    } else {
        assert(s.take(k) =~= s);
    }
}

/// `Some(v)` when `s[lo..hi]` is a nonempty run of digits whose value `v` is
/// at most `cap`.
fn digits_capped(s: &[char], lo: usize, hi: usize, cap: u128) -> (r: Option<u128>)
    requires
        lo <= hi <= s@.len(),
    ensures
        ({
            let b = s@.subrange(lo as int, hi as int);
            match r {
                Some(v) => b.len() > 0 && all_digits(b) && digits_value(b) <= cap && v
                    == digits_value(b),
                None => !(b.len() > 0 && all_digits(b) && digits_value(b) <= cap),
            }
        }),
{
    let ghost b = s@.subrange(lo as int, hi as int);
    if lo == hi {
        return None;
    }
    let mut v: u128 = 0;
    let mut i = lo;
    assert(b.take(0) =~= Seq::<char>::empty());
    while i < hi
        invariant
            lo <= i <= hi <= s@.len(),
            b == s@.subrange(lo as int, hi as int),
            all_digits(b.take(i - lo)),
            v == digits_value(b.take(i - lo)),
            v <= cap,
        decreases hi - i,
    {
        let c = s[i];
        assert(b[i - lo] == c);
        if !('0' <= c && c <= '9') {
            return None;
        }
        let d = ((c as u32) - ('0' as u32)) as u128;
        assert(b.take(i - lo + 1).drop_last() =~= b.take(i - lo));
        assert(b.take(i - lo + 1).last() == c);
        if v > cap / 10 || (v == cap / 10 && d > cap % 10) {
            proof {
                assert(v * 10 + d > cap) by (nonlinear_arith)
                    requires
                        v > cap / 10 || (v == cap / 10 && d > cap % 10),
                        cap >= 0,
                        d >= 0,
                ;
                lemma_digits_value_prefix(b, i - lo + 1);
            }
            return None;
        }
        assert(v * 10 + d <= cap) by (nonlinear_arith)
            requires
                !(v > cap / 10 || (v == cap / 10 && d > cap % 10)),
                cap >= 0,
                d >= 0,
                d <= 9,
        ;
        v = v * 10 + d;
        i += 1;
        assert(all_digits(b.take(i - lo))) by {
            assert forall|k: int| 0 <= k < i - lo implies is_digit(#[trigger] b.take(i - lo)[k]) by {
                if k < i - lo - 1 {
                    assert(b.take(i - lo)[k] == b.take(i - lo - 1)[k]);
                }
            }
        }
    }
    assert(b.take(hi - lo) =~= b);
    Some(v)
}

/// `str::parse::<usize>`: an optional `+`, then one or more digits whose
/// value fits.
pub open spec fn parse_usize(s: Seq<char>) -> Option<usize> {
    let body = if s.len() > 0 && s[0] == '+' {
        s.drop_first()
    } else {
        s
    };
    if body.len() > 0 && all_digits(body) && digits_value(body) <= usize::MAX {
        Some(digits_value(body) as usize)
    } else {
        None
    }
}

pub fn parse_usize_exec(s: &[char]) -> (r: Option<usize>)
    ensures
        r == parse_usize(s@),
{
    let lo: usize = if s.len() > 0 && s[0] == '+' {
        1
    } else {
        0
    };
    assert(lo == 1 ==> s@.subrange(1, s@.len() as int) =~= s@.drop_first());
    assert(lo == 0 ==> s@.subrange(0, s@.len() as int) =~= s@);
    match digits_capped(s, lo, s.len(), usize::MAX as u128) {
        Some(v) => Some(v as usize),
        None => None,
    }
}

/// `str::parse::<i64>`: an optional sign, then one or more digits whose
/// signed value fits.
pub open spec fn parse_i64(s: Seq<char>) -> Option<i64> {
    if s.len() > 0 && s[0] == '-' {
        let body = s.drop_first();
        if body.len() > 0 && all_digits(body) && digits_value(body) <= 0x8000_0000_0000_0000 {
            Some((0 - digits_value(body)) as i64)
        } else {
            None
        }
    } else {
        let body = if s.len() > 0 && s[0] == '+' {
            s.drop_first()
        } else {
            s
        };
        if body.len() > 0 && all_digits(body) && digits_value(body) <= i64::MAX {
            Some(digits_value(body) as i64)
        } else {
            None
        }
    }
}

pub fn parse_i64_exec(s: &[char]) -> (r: Option<i64>)
    ensures
        r == parse_i64(s@),
{
    if s.len() > 0 && s[0] == '-' {
        assert(s@.subrange(1, s@.len() as int) =~= s@.drop_first());
        match digits_capped(s, 1, s.len(), 0x8000_0000_0000_0000u128) {
            Some(v) => {
                let r = (0i128 - (v as i128)) as i64;
                Some(r)
            },
            None => None,
        }
    } else {
        let lo: usize = if s.len() > 0 && s[0] == '+' {
            1
        } else {
            0
        };
        assert(lo == 1 ==> s@.subrange(1, s@.len() as int) =~= s@.drop_first());
        assert(lo == 0 ==> s@.subrange(0, s@.len() as int) =~= s@);
        match digits_capped(s, lo, s.len(), i64::MAX as u128) {
            Some(v) => Some(v as i64),
            None => None,
        }
    }
}

/// The value that `s.parse::<i128>().unwrap_or(0) as i64` gives for a run of
/// digits: the value modulo 2^64 read as signed, or 0 when it exceeds
/// `i128::MAX`.
pub open spec fn int_literal_value(s: Seq<char>) -> i64 {
    if s.len() > 0 && all_digits(s) && digits_value(s) <= i128::MAX {
        (digits_value(s) as i128) as i64
    } else {
        0
    }
}

pub fn int_literal_value_exec(s: &[char]) -> (r: i64)
    ensures
        r == int_literal_value(s@),
{
    assert(s@.subrange(0, s@.len() as int) =~= s@);
    match digits_capped(s, 0, s.len(), i128::MAX as u128) {
        Some(v) => {
            let w = v as i128;
            #[verifier::truncate]
            (w as i64)
        },
        None => 0,
    }
}

// ----- decimal rendering ------------------------------------------------------

/// The decimal digits of `n`, without leading zeros (`"0"` for zero).
pub open spec fn decimal(n: nat) -> Seq<char>
    decreases n,
{
    if n < 10 {
        seq![digit_char(n)]
    } else {
        decimal(n / 10).push(digit_char(n % 10))
    }
}

/// `i64` as `Display` renders it.
pub open spec fn signed_decimal(n: int) -> Seq<char> {
    if n < 0 {
        seq!['-'] + decimal((0 - n) as nat)
    } else {
        decimal(n as nat)
    }
}

pub fn decimal_exec(n: u64) -> (r: Vec<char>)
    ensures
        r@ == decimal(n as nat),
    decreases n,
{
    if n < 10 {
        let c = ((n as u8) + 48u8) as char;
        vec![c]
    } else {
        let mut v = decimal_exec(n / 10);
        let c = (((n % 10) as u8) + 48u8) as char;
        v.push(c);
        v
    }
}

pub fn signed_decimal_exec(n: i64) -> (r: Vec<char>)
    ensures
        r@ == signed_decimal(n as int),
{
    if n < 0 {
        let m: u64 = (0i128 - (n as i128)) as u64;
        let d = decimal_exec(m);
        let mut r = vec!['-'];
        let mut i: usize = 0;
        while i < d.len()
            invariant
                i <= d@.len(),
                r@ == seq!['-'] + d@.take(i as int),
            decreases d.len() - i,
        {
            r.push(d[i]);
            assert(seq!['-'] + d@.take(i + 1) =~= (seq!['-'] + d@.take(i as int)).push(d@[i as int]));
            i += 1;
        }
        assert(d@.take(d@.len() as int) =~= d@);
        r
    } else {
        decimal_exec(n as u64)
    }
}

} // verus!

verus! {

/// The digit character of `d < 10` reads back as a digit of value `d`.
pub proof fn lemma_digit_char(d: nat)
    requires
        d < 10,
    ensures
        is_digit(digit_char(d)),
        digit_value(digit_char(d)) == d,
{
    assert(((d + 48) as u8) as char as int == d + 48);
}

/// The decimal form of `n` is a nonempty run of digits whose value is `n`.
pub proof fn lemma_decimal_digits(n: nat)
    ensures
        decimal(n).len() > 0,
        all_digits(decimal(n)),
        digits_value(decimal(n)) == n,
    decreases n,
{
    lemma_digit_char(n % 10);
    if n < 10 {
        assert(decimal(n).drop_last() =~= Seq::<char>::empty());
        assert(decimal(n).last() == digit_char(n));
        assert(digits_value(decimal(n)) == digits_value(decimal(n).drop_last()) * 10 + digit_value(
            decimal(n).last(),
        ));
    } else {
        lemma_decimal_digits(n / 10);
        let d = decimal(n);
        assert(d.drop_last() =~= decimal(n / 10));
        assert(d.last() == digit_char(n % 10));
        assert(digits_value(d) == digits_value(decimal(n / 10)) * 10 + n % 10);
        assert((n / 10) * 10 + n % 10 == n);
        assert forall|k: int| 0 <= k < d.len() implies is_digit(#[trigger] d[k]) by {
            if k < d.len() - 1 {
                assert(d[k] == decimal(n / 10)[k]);
            }
        }
    }
}

/// `s` without any trailing `c` (`str::trim_end_matches` with a character).
pub open spec fn trim_end_char(s: Seq<char>, c: char) -> Seq<char>
    decreases s.len(),
{
    if s.len() > 0 && s.last() == c {
        trim_end_char(s.drop_last(), c)
    } else {
        s
    }
}

pub proof fn lemma_trim_end_char_take(s: Seq<char>, c: char, j: int)
    requires
        0 <= j <= s.len(),
        forall|k: int| j <= k < s.len() ==> #[trigger] s[k] == c,
        j == 0 || s[j - 1] != c,
    ensures
        trim_end_char(s, c) == s.take(j),
    decreases s.len() - j,
{
    if j == s.len() {
        assert(s.take(j) =~= s);
    } else {
        lemma_trim_end_char_take(s.drop_last(), c, j);
        assert(s.drop_last().take(j) =~= s.take(j));
    }
}

pub fn trim_end_char_exec(s: &[char], c: char) -> (r: Vec<char>)
    ensures
        r@ == trim_end_char(s@, c),
{
    let mut j: usize = s.len();
    while j > 0 && s[j - 1] == c
        invariant
            j <= s@.len(),
            forall|k: int| j <= k < s@.len() ==> #[trigger] s@[k] == c,
        decreases j,
    {
        j -= 1;
    }
    proof {
        lemma_trim_end_char_take(s@, c, j as int);
    }
    let r = copy_range(s, 0, j);
    assert(s@.subrange(0, j as int) =~= s@.take(j as int));
    r
}

/// The parts joined with `sep` between neighbours (`[T]::join`).
pub open spec fn join(parts: Seq<Seq<char>>, sep: char) -> Seq<char>
    decreases parts.len(),
{
    if parts.len() == 0 {
        Seq::empty()
    } else if parts.len() == 1 {
        parts[0]
    } else {
        join(parts.drop_last(), sep) + seq![sep] + parts.last()
    }
}

/// Appends `b` to `a`.
pub fn append_chars(a: &mut Vec<char>, b: &[char])
    ensures
        final(a)@ == old(a)@ + b@,
{
    let ghost a0 = a@;
    let mut i: usize = 0;
    while i < b.len()
        invariant
            i <= b@.len(),
            a@ == a0 + b@.take(i as int),
        decreases b.len() - i,
    {
        a.push(b[i]);
        assert(a0 + b@.take(i + 1) =~= (a0 + b@.take(i as int)).push(b@[i as int]));
        i += 1;
    }
    assert(b@.take(b@.len() as int) =~= b@);
}

/// Equality of two character sequences.
pub fn chars_eq(a: &[char], b: &[char]) -> (r: bool)
    ensures
        r == (a@ == b@),
{
    if a.len() != b.len() {
        return false;
    }
    let mut i: usize = 0;
    while i < a.len()
        invariant
            a@.len() == b@.len(),
            i <= a@.len(),
            forall|k: int| 0 <= k < i ==> a@[k] == b@[k],
        decreases a.len() - i,
    {
        if a[i] != b[i] {
            return false;
        }
        i += 1;
    }
    assert(a@ =~= b@);
    true
}

/// Equality of a string's characters with a character sequence.
pub fn str_eq_chars(a: &str, b: &[char]) -> (r: bool)
    ensures
        r == (a@ == b@),
{
    let av = str_chars(a);
    chars_eq(&av, b)
}

/// Equality of two strings.
pub fn same_text(a: &str, b: &str) -> (r: bool)
    ensures
        r == (a@ == b@),
{
    let bv = str_chars(b);
    str_eq_chars(a, &bv)
}

} // verus!
