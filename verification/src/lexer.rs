//! Tokenizer for Circom source text.

use vstd::prelude::*;
use crate::text::string_push;
use vstd::string::StringSliceAdditionalSpecFns;

verus! {

/// A token of Circom source text.
#[derive(Debug, PartialEq, Eq)]
pub enum Tok {
    Ident(String),
    /// Lexed as text so that large literals are kept; read as a number when parsed.
    Int(String),
    Punct(String),
    Eof,
}

/// The mathematical form of a token.
pub enum TokV {
    Ident(Seq<char>),
    Int(Seq<char>),
    Punct(Seq<char>),
    Eof,
}

impl View for Tok {
    type V = TokV;

    open spec fn view(&self) -> TokV {
        match self {
            Tok::Ident(s) => TokV::Ident(s@),
            Tok::Int(s) => TokV::Int(s@),
            Tok::Punct(s) => TokV::Punct(s@),
            Tok::Eof => TokV::Eof,
        }
    }
}

/// A token with the 1-based line it starts on.
#[derive(Debug)]
pub struct LexedTok {
    pub tok: Tok,
    pub line: u32,
}

impl View for LexedTok {
    type V = (TokV, int);

    open spec fn view(&self) -> (TokV, int) {
        (self.tok@, self.line as int)
    }
}

pub open spec fn lexed_views(v: Seq<LexedTok>) -> Seq<(TokV, int)> {
    v.map_values(|t: LexedTok| t@)
}

/// Bytes read as characters, one each.
pub open spec fn byte_chars(b: Seq<u8>) -> Seq<char> {
    b.map_values(|x: u8| x as char)
}

/// `u8::is_ascii_whitespace`.
pub open spec fn is_ascii_ws(c: u8) -> bool {
    c == 32 || c == 9 || c == 10 || c == 12 || c == 13
}

pub open spec fn is_alpha(c: u8) -> bool {
    (65 <= c <= 90) || (97 <= c <= 122)
}

pub open spec fn is_digit_byte(c: u8) -> bool {
    48 <= c <= 57
}

pub open spec fn is_ident_byte(c: u8) -> bool {
    is_alpha(c) || is_digit_byte(c) || c == 95
}

/// Number of `\n` bytes.
pub open spec fn count_newlines(b: Seq<u8>) -> nat
    decreases b.len(),
{
    if b.len() == 0 {
        0
    } else {
        count_newlines(b.drop_last()) + if b.last() == 10 {
            1nat
        } else {
            0nat
        }
    }
}

/// How many `\n` bytes a text holds.
pub fn count_newline_bytes(src: &str) -> (r: usize)
    ensures
        r as int == count_newlines(src.spec_bytes()),
{
    let bs = src.as_bytes();
    let mut n: usize = 0;
    let mut i: usize = 0;
    assert(bs@.take(0) =~= Seq::<u8>::empty());
    while i < bs.len()
        invariant
            i <= bs@.len(),
            bs@ == src.spec_bytes(),
            n as int == count_newlines(bs@.take(i as int)),
            n <= i,
        decreases bs.len() - i,
    {
        assert(bs@.take(i + 1).drop_last() =~= bs@.take(i as int));
        if bs[i] == 10 {
            n += 1;
        }
        i += 1;
    }
    assert(bs@.take(bs@.len() as int) =~= bs@);
    n
}

/// The byte classes that runs are made of: not a newline (`0`), an
/// identifier byte (`1`), a digit (otherwise).
pub open spec fn run_pred(kind: int, x: u8) -> bool {
    if kind == 0 {
        x != 10
    } else if kind == 1 {
        is_ident_byte(x)
    } else {
        is_digit_byte(x)
    }
}

/// End of the run of bytes from `i` in class `kind`.
pub open spec fn run_end(b: Seq<u8>, i: int, kind: int) -> int
    decreases b.len() - i,
{
    if 0 <= i < b.len() && run_pred(kind, b[i]) {
        run_end(b, i + 1, kind)
    } else {
        i
    }
}

/// Where a block comment's scan stops (the index of its closing `*`, or
/// where bytes run out) and the line count there.
pub open spec fn block_scan(b: Seq<u8>, i: int, line: int) -> (int, int)
    decreases b.len() - i,
{
    if 0 <= i && i + 1 < b.len() && !(b[i] == 42 && b[i + 1] == 47) {
        block_scan(b, i + 1, line + if b[i] == 10 {
            1int
        } else {
            0int
        })
    } else {
        (i, line)
    }
}

pub open spec fn three_puncts() -> Seq<Seq<u8>> {
    seq![
        seq![60u8, 61, 61],
        seq![61u8, 61, 61],
        seq![60u8, 45, 45],
        seq![61u8, 61, 62],
        seq![45u8, 45, 62],
        seq![62u8, 62, 61],
        seq![60u8, 60, 61],
    ]
}

pub open spec fn two_puncts() -> Seq<Seq<u8>> {
    seq![
        seq![61u8, 61],
        seq![33u8, 61],
        seq![60u8, 61],
        seq![62u8, 61],
        seq![38u8, 38],
        seq![124u8, 124],
        seq![60u8, 60],
        seq![62u8, 62],
        seq![43u8, 43],
        seq![45u8, 45],
        seq![43u8, 61],
        seq![45u8, 61],
        seq![42u8, 61],
        seq![47u8, 61],
    ]
}

/// Whether the `n` bytes at `i` form one of the listed operators.
pub open spec fn punct_at(b: Seq<u8>, i: int, n: int, ops: Seq<Seq<u8>>) -> bool {
    0 <= i && i + n <= b.len() && ops.contains(b.subrange(i, i + n))
}

/// The tokens of `b` from index `i` on, `line` being the current line.
pub open spec fn lex(b: Seq<u8>, i: int, line: int) -> Seq<(TokV, int)>
    decreases b.len() - i, 1int,
{
    if i < 0 || i >= b.len() {
        seq![(TokV::Eof, line)]
    } else {
        let c = b[i];
        if c == 10 {
            lex(b, i + 1, line + 1)
        } else if is_ascii_ws(c) {
            lex(b, i + 1, line)
        } else if c == 47 && i + 1 < b.len() && b[i + 1] == 47 {
            let j = run_end(b, i, 0);
            if i < j <= b.len() {
                lex(b, j, line)
            } else {
                seq![(TokV::Eof, line)]
            }
        } else if c == 47 && i + 1 < b.len() && b[i + 1] == 42 {
            let (j, l) = block_scan(b, i + 2, line);
            let e = if j + 2 < b.len() {
                j + 2
            } else {
                b.len() as int
            };
            if e > i {
                lex(b, e, l)
            } else {
                seq![(TokV::Eof, line)]
            }
        } else if is_alpha(c) || c == 95 {
            let j = run_end(b, i, 1);
            if i < j <= b.len() {
                seq![(TokV::Ident(byte_chars(b.subrange(i, j))), line)] + lex(b, j, line)
            } else {
                seq![(TokV::Eof, line)]
            }
        } else if is_digit_byte(c) {
            let j = run_end(b, i, 2);
            if i < j <= b.len() {
                seq![(TokV::Int(byte_chars(b.subrange(i, j))), line)] + lex(b, j, line)
            } else {
                seq![(TokV::Eof, line)]
            }
        } else if punct_at(b, i, 3, three_puncts()) {
            seq![(TokV::Punct(byte_chars(b.subrange(i, i + 3))), line)] + lex(b, i + 3, line)
        } else if punct_at(b, i, 2, two_puncts()) {
            seq![(TokV::Punct(byte_chars(b.subrange(i, i + 2))), line)] + lex(b, i + 2, line)
        } else {
            seq![(TokV::Punct(seq![c as char]), line)] + lex(b, i + 1, line)
        }
    }
}


/// What `lex` gives is never empty, ends with `Eof`, and holds no other
/// `Eof`.
pub proof fn lemma_lex_ends_once(b: Seq<u8>, i: int, line: int)
    ensures
        lex(b, i, line).len() > 0,
        lex(b, i, line).last().0 is Eof,
        forall|k: int| 0 <= k < lex(b, i, line).len() - 1 ==> !(#[trigger] lex(b, i, line)[k].0 is Eof),
    decreases b.len() - i,
{
    if i < 0 || i >= b.len() {
    } else {
        let c = b[i];
        if c == 10 {
            lemma_lex_ends_once(b, i + 1, line + 1);
        } else if is_ascii_ws(c) {
            lemma_lex_ends_once(b, i + 1, line);
        } else if c == 47 && i + 1 < b.len() && b[i + 1] == 47 {
            let j = run_end(b, i, 0);
            if i < j <= b.len() {
                lemma_lex_ends_once(b, j, line);
            }
        } else if c == 47 && i + 1 < b.len() && b[i + 1] == 42 {
            let (j, l) = block_scan(b, i + 2, line);
            let e = if j + 2 < b.len() {
                j + 2
            } else {
                b.len() as int
            };
            if e > i {
                lemma_lex_ends_once(b, e, l);
            }
        } else {
            let j = if is_alpha(c) || c == 95 {
                run_end(b, i, 1)
            } else if is_digit_byte(c) {
                run_end(b, i, 2)
            } else if punct_at(b, i, 3, three_puncts()) {
                i + 3
            } else if punct_at(b, i, 2, two_puncts()) {
                i + 2
            } else {
                i + 1
            };
            if i < j <= b.len() {
                lemma_lex_ends_once(b, j, line);
                let rest = lex(b, j, line);
                let all = lex(b, i, line);
                assert(all.len() == rest.len() + 1);
                assert(all.last() == rest.last());
                assert forall|k: int| 0 <= k < all.len() - 1 implies !(#[trigger] all[k].0 is Eof) by {
                    if k > 0 {
                        assert(all[k] == rest[k - 1]);
                    }
                }
            }
        }
    }
}

proof fn lemma_run_end_ge(b: Seq<u8>, i: int, kind: int)
    requires
        0 <= i,
    ensures
        i <= run_end(b, i, kind),
    decreases b.len() - i,
{
    if 0 <= i < b.len() && run_pred(kind, b[i]) {
        lemma_run_end_ge(b, i + 1, kind);
    }
}

proof fn lemma_count_step(b: Seq<u8>, i: int)
    requires
        0 <= i < b.len(),
    ensures
        count_newlines(b.take(i + 1)) == count_newlines(b.take(i)) + if b[i] == 10 {
            1nat
        } else {
            0nat
        },
{
    assert(b.take(i + 1).drop_last() =~= b.take(i));
}

proof fn lemma_count_mono(b: Seq<u8>, i: int, j: int)
    requires
        0 <= i <= j <= b.len(),
    ensures
        count_newlines(b.take(i)) <= count_newlines(b.take(j)),
    decreases j - i,
{
    if i < j {
        lemma_count_mono(b, i, j - 1);
        lemma_count_step(b, j - 1);
    }
}

fn run_pred_exec(kind: u8, x: u8) -> (r: bool)
    ensures
        r == run_pred(kind as int, x),
{
    if kind == 0 {
        x != 10
    } else if kind == 1 {
        (65 <= x && x <= 90) || (97 <= x && x <= 122) || (48 <= x && x <= 57) || x == 95
    } else {
        48 <= x && x <= 57
    }
}

fn run_end_exec(b: &[u8], i: usize, kind: u8) -> (j: usize)
    requires
        i <= b@.len(),
    ensures
        j as int == run_end(b@, i as int, kind as int),
        i <= j <= b@.len(),
        i < b@.len() && run_pred(kind as int, b@[i as int]) ==> i < j,
        forall|k: int| i <= k < j ==> run_pred(kind as int, #[trigger] b@[k]),
{
    let mut j = i;
    while j < b.len() && run_pred_exec(kind, b[j])
        invariant
            i <= j <= b@.len(),
            run_end(b@, i as int, kind as int) == run_end(b@, j as int, kind as int),
            forall|k: int| i <= k < j ==> run_pred(kind as int, #[trigger] b@[k]),
        decreases b.len() - j,
    {
        j += 1;
    }
    proof {
        if i < b@.len() && run_pred(kind as int, b@[i as int]) {
            lemma_run_end_ge(b@, i + 1, kind as int);
        }
    }
    j
}

fn bytes_string(b: &[u8], i: usize, j: usize) -> (s: String)
    requires
        i <= j <= b@.len(),
    ensures
        s@ == byte_chars(b@.subrange(i as int, j as int)),
{
    let mut s = String::new();
    let mut k = i;
    while k < j
        invariant
            i <= k <= j <= b@.len(),
            s@ == byte_chars(b@.subrange(i as int, k as int)),
        decreases j - k,
    {
        string_push(&mut s, b[k] as char);
        assert(byte_chars(b@.subrange(i as int, k + 1)) =~= byte_chars(
            b@.subrange(i as int, k as int),
        ).push(b@[k as int] as char));
        k += 1;
    }
    s
}

fn is_three_punct(b: &[u8], i: usize) -> (r: bool)
    requires
        i < b@.len(),
    ensures
        r == punct_at(b@, i as int, 3, three_puncts()),
{
    if b.len() - i < 3 {
        return false;
    }
    let (x, y, z) = (b[i], b[i + 1], b[i + 2]);
    let r = (x == 60 && y == 61 && z == 61) || (x == 61 && y == 61 && z == 61) || (x == 60 && y
        == 45 && z == 45) || (x == 61 && y == 61 && z == 62) || (x == 45 && y == 45 && z == 62) || (
    x == 62 && y == 62 && z == 61) || (x == 60 && y == 60 && z == 61);
    proof {
        let sub = b@.subrange(i as int, i + 3);
        assert(sub =~= seq![x, y, z]);
        let ops = three_puncts();
        if r {
            if x == 60 && y == 61 && z == 61 {
                assert(ops[0] =~= sub);
            } else if x == 61 && y == 61 && z == 61 {
                assert(ops[1] =~= sub);
            } else if x == 60 && y == 45 && z == 45 {
                assert(ops[2] =~= sub);
            } else if x == 61 && y == 61 && z == 62 {
                assert(ops[3] =~= sub);
            } else if x == 45 && y == 45 && z == 62 {
                assert(ops[4] =~= sub);
            } else if x == 62 && y == 62 && z == 61 {
                assert(ops[5] =~= sub);
            } else {
                assert(ops[6] =~= sub);
            }
        } else {
            assert forall|k: int| 0 <= k < ops.len() implies ops[k] != sub by {
                assert(ops[k].len() == 3);
                if ops[k] == sub {
                    assert(ops[k][0] == x && ops[k][1] == y && ops[k][2] == z);
                }
            }
        }
    }
    r
}

fn is_two_punct(b: &[u8], i: usize) -> (r: bool)
    requires
        i < b@.len(),
    ensures
        r == punct_at(b@, i as int, 2, two_puncts()),
{
    if b.len() - i < 2 {
        return false;
    }
    let (x, y) = (b[i], b[i + 1]);
    let r = (x == 61 && y == 61) || (x == 33 && y == 61) || (x == 60 && y == 61) || (x == 62 && y
        == 61) || (x == 38 && y == 38) || (x == 124 && y == 124) || (x == 60 && y == 60) || (x == 62
        && y == 62) || (x == 43 && y == 43) || (x == 45 && y == 45) || (x == 43 && y == 61) || (x
        == 45 && y == 61) || (x == 42 && y == 61) || (x == 47 && y == 61);
    proof {
        let sub = b@.subrange(i as int, i + 2);
        assert(sub =~= seq![x, y]);
        let ops = two_puncts();
        if r {
            assert(exists|k: int| 0 <= k < ops.len() && ops[k] =~= sub) by {
                if x == 61 && y == 61 {
                    assert(ops[0] =~= sub);
                } else if x == 33 && y == 61 {
                    assert(ops[1] =~= sub);
                } else if x == 60 && y == 61 {
                    assert(ops[2] =~= sub);
                } else if x == 62 && y == 61 {
                    assert(ops[3] =~= sub);
                } else if x == 38 && y == 38 {
                    assert(ops[4] =~= sub);
                } else if x == 124 && y == 124 {
                    assert(ops[5] =~= sub);
                } else if x == 60 && y == 60 {
                    assert(ops[6] =~= sub);
                } else if x == 62 && y == 62 {
                    assert(ops[7] =~= sub);
                } else if x == 43 && y == 43 {
                    assert(ops[8] =~= sub);
                } else if x == 45 && y == 45 {
                    assert(ops[9] =~= sub);
                } else if x == 43 && y == 61 {
                    assert(ops[10] =~= sub);
                } else if x == 45 && y == 61 {
                    assert(ops[11] =~= sub);
                } else if x == 42 && y == 61 {
                    assert(ops[12] =~= sub);
                } else {
                    assert(ops[13] =~= sub);
                }
            }
        } else {
            assert forall|k: int| 0 <= k < ops.len() implies ops[k] != sub by {
                assert(ops[k].len() == 2);
                if ops[k] == sub {
                    assert(ops[k][0] == x && ops[k][1] == y);
                }
            }
        }
    }
    r
}

/// Split Circom source text into tokens, each with the line it starts on,
/// ending with `Eof`.
pub fn tokenize(src: &str) -> (out: Vec<LexedTok>)
    requires
        count_newlines(src.spec_bytes()) < u32::MAX,
    ensures
        lexed_views(out@) == lex(src.spec_bytes(), 0, 1),
{
    let b = src.as_bytes();
    let ghost bs = b@;
    let mut out: Vec<LexedTok> = Vec::new();
    let mut i: usize = 0;
    let mut line: u32 = 1;
    proof {
        assert(bs.take(0) =~= Seq::<u8>::empty());
        lemma_count_mono(bs, 0, bs.len() as int);
        assert(bs.take(bs.len() as int) =~= bs);
    }
    while i < b.len()
        invariant
            bs == b@,
            bs == src.spec_bytes(),
            count_newlines(bs) < u32::MAX,
            i <= bs.len(),
            line as int <= 1 + count_newlines(bs.take(i as int)),
            lexed_views(out@) + lex(bs, i as int, line as int) == lex(bs, 0, 1),
        decreases b.len() - i,
    {
        let ghost before = lexed_views(out@);
        let c = b[i];
        proof {
            lemma_count_mono(bs, i as int, bs.len() as int);
            assert(bs.take(bs.len() as int) =~= bs);
        }
        if c == 10 {
            proof {
                lemma_count_step(bs, i as int);
                lemma_count_mono(bs, i + 1, bs.len() as int);
            }
            line += 1;
            i += 1;
        } else if c == 32 || c == 9 || c == 12 || c == 13 {
            proof {
                lemma_count_step(bs, i as int);
            }
            i += 1;
        } else if c == 47 && i + 1 < b.len() && b[i + 1] == 47 {
            let j = run_end_exec(b, i, 0);
            proof {
                lemma_count_mono(bs, i as int, j as int);
            }
            i = j;
        } else if c == 47 && i + 1 < b.len() && b[i + 1] == 42 {
            let ghost l0 = line as int;
            let mut j = i + 2;
            proof {
                lemma_count_mono(bs, i as int, j as int);
            }
            while j < b.len() - 1 && !(b[j] == 42 && b[j + 1] == 47)
                invariant
                    bs == b@,
                    bs.len() >= 2,
                    count_newlines(bs) < u32::MAX,
                    i + 2 <= j <= bs.len(),
                    line as int <= 1 + count_newlines(bs.take(j as int)),
                    block_scan(bs, i + 2, l0) == block_scan(bs, j as int, line as int),
                decreases b.len() - j,
            {
                proof {
                    lemma_count_step(bs, j as int);
                    lemma_count_mono(bs, j + 1, bs.len() as int);
                    assert(bs.take(bs.len() as int) =~= bs);
                }
                if b[j] == 10 {
                    line += 1;
                }
                j += 1;
            }
            let e = if j < b.len() - 2 {
                j + 2
            } else {
                b.len()
            };
            proof {
                lemma_count_mono(bs, j as int, e as int);
            }
            i = e;
        } else if (65 <= c && c <= 90) || (97 <= c && c <= 122) || c == 95 {
            let j = run_end_exec(b, i, 1);
            let s = bytes_string(b, i, j);
            out.push(LexedTok { tok: Tok::Ident(s), line });
            proof {
                lemma_count_mono(bs, i as int, j as int);
                assert(lexed_views(out@) =~= before.push((TokV::Ident(s@), line as int)));
            }
            i = j;
        } else if 48 <= c && c <= 57 {
            let j = run_end_exec(b, i, 2);
            let s = bytes_string(b, i, j);
            out.push(LexedTok { tok: Tok::Int(s), line });
            proof {
                lemma_count_mono(bs, i as int, j as int);
                assert(lexed_views(out@) =~= before.push((TokV::Int(s@), line as int)));
            }
            i = j;
        } else if is_three_punct(b, i) {
            let s = bytes_string(b, i, i + 3);
            out.push(LexedTok { tok: Tok::Punct(s), line });
            proof {
                lemma_count_mono(bs, i as int, i + 3);
                assert(lexed_views(out@) =~= before.push((TokV::Punct(s@), line as int)));
            }
            i = i + 3;
        } else if is_two_punct(b, i) {
            let s = bytes_string(b, i, i + 2);
            out.push(LexedTok { tok: Tok::Punct(s), line });
            proof {
                lemma_count_mono(bs, i as int, i + 2);
                assert(lexed_views(out@) =~= before.push((TokV::Punct(s@), line as int)));
            }
            i = i + 2;
        } else {
            let s = bytes_string(b, i, i + 1);
            out.push(LexedTok { tok: Tok::Punct(s), line });
            proof {
                lemma_count_mono(bs, i as int, i + 1);
                assert(byte_chars(bs.subrange(i as int, i + 1)) =~= seq![c as char]);
                assert(lexed_views(out@) =~= before.push((TokV::Punct(s@), line as int)));
            }
            i = i + 1;
        }
    }
    let ghost before = lexed_views(out@);
    out.push(LexedTok { tok: Tok::Eof, line });
    assert(lexed_views(out@) =~= before.push((TokV::Eof, line as int)));
    out
}

} // verus!
