//! Line scanners over Circom source text and `.sym` symbol files: signal
//! declarations and assignments, template definitions, component
//! instances, the main component and its arguments, and the inputs that
//! the witness calculator expects.

use vstd::prelude::*;
use crate::text::{
    copy_range, find_char, find_char_exec, find_seq, find_seq_exec, lines, lines_exec,
    parse_i64, parse_i64_exec, parse_usize, parse_usize_exec, split_on, split_on_exec,
    starts_with, starts_with_exec, str_chars, string_from_chars, strip_prefix, strip_prefix_exec,
    trim, trim_chars, trim_end_char, trim_end_char_exec, views,
};
use crate::signal_hierarchy::SignalPath;
use vstd::string::StringSliceAdditionalSpecFns;
use crate::value::{
    find_last_key, lemma_pairs_map_push, lemma_pairs_map_update, last_key_at, pairs_map,
    signal_get, signals_map, signals_pairs,
};

verus! {

/// Parses a signal name such as `main.comp.arr[3]` into its hierarchical
/// path.
pub fn parse_signal_hierarchy(name: &str) -> (r: SignalPath)
    ensures
        r@ == crate::signal_hierarchy::parse_path(name@),
{
    SignalPath::parse(name)
}

/// Kind of a signal declaration line.
#[derive(Debug, Clone, Copy, PartialEq, Eq, Structural)]
pub enum SignalKind {
    Input,
    Output,
    Intermediate,
}

/// A `signal` declaration line.
#[derive(Debug, Clone)]
pub struct SignalDecl {
    pub name: String,
    pub kind: SignalKind,
    /// 1-based line number of the declaration.
    pub line: u32,
}

pub struct SignalDeclV {
    pub name: Seq<char>,
    pub kind: SignalKind,
    pub line: u32,
}

impl View for SignalDecl {
    type V = SignalDeclV;

    open spec fn view(&self) -> SignalDeclV {
        SignalDeclV { name: self.name@, kind: self.kind, line: self.line }
    }
}

/// A signal assignment line `target <== expression`.
#[derive(Debug, Clone)]
pub struct SignalAssignment {
    pub target: String,
    /// 1-based line number of the assignment.
    pub line: u32,
}

pub struct SignalAssignmentV {
    pub target: Seq<char>,
    pub line: u32,
}

impl View for SignalAssignment {
    type V = SignalAssignmentV;

    open spec fn view(&self) -> SignalAssignmentV {
        SignalAssignmentV { target: self.target@, line: self.line }
    }
}

/// The 1-based number of the line at index `i`.
pub open spec fn line_no(i: int) -> u32 {
    (i + 1) as u32
}

fn line_number(i: usize) -> (r: u32)
    requires
        i < usize::MAX,
    ensures
        r == line_no(i as int),
{
    #[verifier::truncate]
    ((i + 1) as u32)
}

fn chars_of(s: &str) -> (r: Vec<char>)
    ensures
        r@ == s@,
        r@.len() <= usize::MAX,
{
    let r = str_chars(s);
    let n: usize = r.len();
    assert(r@.len() == n);
    r
}

// ----- signal declarations -----------------------------------------------------

/// The declaration on one line: `signal [input|output] name;`.
pub open spec fn signal_decl_of(t: Seq<char>, line: u32) -> Option<SignalDeclV> {
    match strip_prefix(trim(t), "signal "@) {
        None => None,
        Some(r0) => {
            let after = trim(r0);
            let (kind, rest) = match strip_prefix(after, "input "@) {
                Some(r) => (SignalKind::Input, trim(r)),
                None => match strip_prefix(after, "output "@) {
                    Some(r) => (SignalKind::Output, trim(r)),
                    None => (SignalKind::Intermediate, after),
                },
            };
            let name = trim(trim_end_char(rest, ';'));
            if name.len() > 0 {
                Some(SignalDeclV { name, kind, line })
            } else {
                None
            }
        },
    }
}

pub open spec fn signal_decls_upto(ls: Seq<Seq<char>>, n: int) -> Seq<SignalDeclV>
    decreases n,
{
    if n <= 0 || n > ls.len() {
        Seq::empty()
    } else {
        let prev = signal_decls_upto(ls, n - 1);
        match signal_decl_of(ls[n - 1], line_no(n - 1)) {
            Some(d) => prev.push(d),
            None => prev,
        }
    }
}

/// The signal declarations of a source, one per declaring line, in order.
pub open spec fn signal_declarations(src: Seq<char>) -> Seq<SignalDeclV> {
    signal_decls_upto(lines(src), lines(src).len() as int)
}

pub open spec fn decls_view(v: Seq<SignalDecl>) -> Seq<SignalDeclV> {
    v.map_values(|d: SignalDecl| d@)
}

fn signal_decl_line(t: &Vec<char>, line: u32) -> (r: Option<SignalDecl>)
    ensures
        match r {
            Some(d) => signal_decl_of(t@, line) == Some(d@),
            None => signal_decl_of(t@, line) is None,
        },
{
    let tr = trim_chars(t);
    let r0 = match strip_prefix_exec(&tr, &chars_of("signal ")) {
        None => {
            return None;
        },
        Some(r0) => r0,
    };
    let after = trim_chars(&r0);
    let (kind, rest) = match strip_prefix_exec(&after, &chars_of("input ")) {
        Some(r) => (SignalKind::Input, trim_chars(&r)),
        None => match strip_prefix_exec(&after, &chars_of("output ")) {
            Some(r) => (SignalKind::Output, trim_chars(&r)),
            None => (SignalKind::Intermediate, after),
        },
    };
    let name = trim_chars(&trim_end_char_exec(&rest, ';'));
    if name.len() > 0 {
        Some(SignalDecl { name: string_from_chars(&name), kind, line })
    } else {
        None
    }
}

/// Signal declarations of a Circom source, one per line that declares.
pub fn parse_signal_declarations(source: &str) -> (r: Vec<SignalDecl>)
    ensures
        decls_view(r@) == signal_declarations(source@),
{
    let cs = chars_of(source);
    let ls = lines_exec(&cs);
    let mut out: Vec<SignalDecl> = Vec::new();
    let mut i: usize = 0;
    assert(decls_view(out@) =~= Seq::<SignalDeclV>::empty());
    while i < ls.len()
        invariant
            views(ls@) == lines(source@),
            i <= ls@.len(),
            decls_view(out@) == signal_decls_upto(views(ls@), i as int),
        decreases ls.len() - i,
    {
        assert(views(ls@)[i as int] == ls@[i as int]@);
        match signal_decl_line(&ls[i], line_number(i)) {
            Some(d) => {
                let ghost dv = d@;
                out.push(d);
                assert(decls_view(out@) =~= signal_decls_upto(views(ls@), i as int).push(dv));
            },
            None => {},
        }
        i += 1;
    }
    out
}

// ----- signal assignments ------------------------------------------------------

/// The assignment on one line: the text before a `<==`.
pub open spec fn assignment_of(t: Seq<char>, line: u32) -> Option<SignalAssignmentV> {
    let tr = trim(t);
    match find_seq(tr, "<=="@) {
        Some(p) => {
            let target = trim(tr.take(p));
            if target.len() > 0 {
                Some(SignalAssignmentV { target, line })
            } else {
                None
            }
        },
        None => None,
    }
}

pub open spec fn assignments_upto(ls: Seq<Seq<char>>, n: int) -> Seq<SignalAssignmentV>
    decreases n,
{
    if n <= 0 || n > ls.len() {
        Seq::empty()
    } else {
        let prev = assignments_upto(ls, n - 1);
        match assignment_of(ls[n - 1], line_no(n - 1)) {
            Some(d) => prev.push(d),
            None => prev,
        }
    }
}

pub open spec fn signal_assignments(src: Seq<char>) -> Seq<SignalAssignmentV> {
    assignments_upto(lines(src), lines(src).len() as int)
}

pub open spec fn assignments_view(v: Seq<SignalAssignment>) -> Seq<SignalAssignmentV> {
    v.map_values(|d: SignalAssignment| d@)
}

fn assignment_line(t: &Vec<char>, line: u32) -> (r: Option<SignalAssignment>)
    ensures
        match r {
            Some(d) => assignment_of(t@, line) == Some(d@),
            None => assignment_of(t@, line) is None,
        },
{
    let tr = trim_chars(t);
    match find_seq_exec(&tr, &chars_of("<==")) {
        Some(p) => {
            let head = copy_range(&tr, 0, p);
            assert(head@ =~= tr@.take(p as int));
            let target = trim_chars(&head);
            if target.len() > 0 {
                Some(SignalAssignment { target: string_from_chars(&target), line })
            } else {
                None
            }
        },
        None => None,
    }
}

/// Signal assignments `target <== expression` of a Circom source, one per
/// line.
pub fn parse_signal_assignments(source: &str) -> (r: Vec<SignalAssignment>)
    ensures
        assignments_view(r@) == signal_assignments(source@),
{
    let cs = chars_of(source);
    let ls = lines_exec(&cs);
    let mut out: Vec<SignalAssignment> = Vec::new();
    let mut i: usize = 0;
    assert(assignments_view(out@) =~= Seq::<SignalAssignmentV>::empty());
    while i < ls.len()
        invariant
            views(ls@) == lines(source@),
            i <= ls@.len(),
            assignments_view(out@) == assignments_upto(views(ls@), i as int),
        decreases ls.len() - i,
    {
        assert(views(ls@)[i as int] == ls@[i as int]@);
        match assignment_line(&ls[i], line_number(i)) {
            Some(d) => {
                let ghost dv = d@;
                out.push(d);
                assert(assignments_view(out@) =~= assignments_upto(views(ls@), i as int).push(dv));
            },
            None => {},
        }
        i += 1;
    }
    out
}

// ----- argument lists ------------------------------------------------------------

/// The pieces of a list, trimmed, empty ones left out.
pub open spec fn nonempty_trimmed(ps: Seq<Seq<char>>) -> Seq<Seq<char>>
    decreases ps.len(),
{
    if ps.len() == 0 {
        Seq::empty()
    } else {
        let r = nonempty_trimmed(ps.drop_last());
        let t = trim(ps.last());
        if t.len() > 0 {
            r.push(t)
        } else {
            r
        }
    }
}

/// `inner.split(',')` trimmed, empty pieces left out.
pub open spec fn arg_pieces(inner: Seq<char>) -> Seq<Seq<char>> {
    nonempty_trimmed(split_on(inner, ','))
}

/// An integer-literal argument; 0 where it is not one.
pub open spec fn int_or_zero(p: Seq<char>) -> i64 {
    match parse_i64(p) {
        Some(v) => v,
        None => 0,
    }
}

/// The integer arguments of a comma-separated list (0 for a non-literal).
pub open spec fn int_args(inner: Seq<char>) -> Seq<i64> {
    arg_pieces(inner).map_values(|p: Seq<char>| int_or_zero(p))
}

fn arg_pieces_exec(inner: &Vec<char>) -> (r: Vec<Vec<char>>)
    ensures
        views(r@) == arg_pieces(inner@),
{
    let ps = split_on_exec(inner, ',');
    let mut out: Vec<Vec<char>> = Vec::new();
    let mut i: usize = 0;
    assert(views(ps@).take(0) =~= Seq::<Seq<char>>::empty());
    assert(views(out@) =~= Seq::<Seq<char>>::empty());
    while i < ps.len()
        invariant
            views(ps@) == split_on(inner@, ','),
            i <= ps@.len(),
            views(out@) == nonempty_trimmed(views(ps@).take(i as int)),
        decreases ps.len() - i,
    {
        let ghost prev = views(ps@).take(i as int);
        assert(views(ps@).take(i + 1).drop_last() =~= prev);
        assert(views(ps@).take(i + 1).last() == ps@[i as int]@);
        let t = trim_chars(&ps[i]);
        if t.len() > 0 {
            let ghost tv = t@;
            out.push(t);
            assert(views(out@) =~= nonempty_trimmed(prev).push(tv));
        }
        i += 1;
    }
    assert(views(ps@).take(ps@.len() as int) =~= views(ps@));
    out
}

fn int_args_exec(inner: &Vec<char>) -> (r: Vec<i64>)
    ensures
        r@ == int_args(inner@),
{
    let ps = arg_pieces_exec(inner);
    let mut out: Vec<i64> = Vec::new();
    let mut i: usize = 0;
    while i < ps.len()
        invariant
            views(ps@) == arg_pieces(inner@),
            i <= ps@.len(),
            out@ == views(ps@).take(i as int).map_values(|p: Seq<char>| int_or_zero(p)),
        decreases ps.len() - i,
    {
        let v = match parse_i64_exec(&ps[i]) {
            Some(v) => v,
            None => 0,
        };
        out.push(v);
        assert(views(ps@)[i as int] == ps@[i as int]@);
        assert(out@ =~= views(ps@).take(i + 1).map_values(|p: Seq<char>| int_or_zero(p)));
        i += 1;
    }
    assert(views(ps@).take(ps@.len() as int) =~= views(ps@));
    out
}

// ----- the main component ----------------------------------------------------------

/// The template named on a `component main = Name(...)` line.
pub open spec fn main_line_name(t: Seq<char>) -> Option<Seq<char>> {
    let tr = trim(t);
    if starts_with(tr, "component main"@) {
        match find_char(tr, '=') {
            Some(eq) => {
                let ae = trim(tr.skip(eq + 1));
                match find_char(ae, '(') {
                    Some(pp) => {
                        let name = trim(ae.take(pp));
                        if name.len() > 0 {
                            Some(name)
                        } else {
                            None
                        }
                    },
                    None => None,
                }
            },
            None => None,
        }
    } else {
        None
    }
}

pub open spec fn first_main_name(ls: Seq<Seq<char>>, i: int) -> Option<Seq<char>>
    decreases ls.len() - i,
{
    if i < 0 || i >= ls.len() {
        None
    } else {
        match main_line_name(ls[i]) {
            Some(n) => Some(n),
            None => first_main_name(ls, i + 1),
        }
    }
}

/// The template that `component main` instantiates: the first line of that
/// form that names one.
pub open spec fn main_template_name(src: Seq<char>) -> Option<Seq<char>> {
    first_main_name(lines(src), 0)
}

/// `s[from..]` with white space trimmed.
fn trim_from(s: &Vec<char>, from: usize) -> (r: Vec<char>)
    requires
        from <= s@.len(),
    ensures
        r@ == trim(s@.skip(from as int)),
{
    let t = copy_range(s, from, s.len());
    assert(t@ =~= s@.skip(from as int));
    trim_chars(&t)
}

/// `s[..to]` with white space trimmed.
fn trim_to(s: &Vec<char>, to: usize) -> (r: Vec<char>)
    requires
        to <= s@.len(),
    ensures
        r@ == trim(s@.take(to as int)),
{
    let t = copy_range(s, 0, to);
    assert(t@ =~= s@.take(to as int));
    trim_chars(&t)
}

fn find_char_in(s: &Vec<char>, c: char) -> (r: Option<usize>)
    ensures
        s@.len() <= usize::MAX,
        match r {
            Some(i) => find_char(s@, c) == Some(i as int) && i < s@.len(),
            None => find_char(s@, c) is None,
        },
{
    proof {
        crate::text::lemma_find_char_props(s@, c);
    }
    let _n = s.len();
    find_char_exec(s, c)
}

fn main_line_name_exec(t: &Vec<char>) -> (r: Option<Vec<char>>)
    ensures
        match r {
            Some(n) => main_line_name(t@) == Some(n@),
            None => main_line_name(t@) is None,
        },
{
    let tr = trim_chars(t);
    if !starts_with_exec(&tr, &chars_of("component main")) {
        return None;
    }
    let eq = match find_char_in(&tr, '=') {
        Some(e) => e,
        None => {
            return None;
        },
    };
    let ae = trim_from(&tr, eq + 1);
    let pp = match find_char_in(&ae, '(') {
        Some(p) => p,
        None => {
            return None;
        },
    };
    let name = trim_to(&ae, pp);
    if name.len() > 0 {
        Some(name)
    } else {
        None
    }
}

/// The name of the template instantiated as `component main = Name(...)`.
pub fn find_main_template_name(source: &str) -> (r: Option<String>)
    ensures
        match r {
            Some(n) => main_template_name(source@) == Some(n@),
            None => main_template_name(source@) is None,
        },
{
    let cs = chars_of(source);
    let ls = lines_exec(&cs);
    let mut i: usize = 0;
    while i < ls.len()
        invariant
            views(ls@) == lines(source@),
            i <= ls@.len(),
            main_template_name(source@) == first_main_name(views(ls@), i as int),
        decreases ls.len() - i,
    {
        assert(views(ls@)[i as int] == ls@[i as int]@);
        match main_line_name_exec(&ls[i]) {
            Some(n) => {
                return Some(string_from_chars(&n));
            },
            None => {},
        }
        i += 1;
    }
    None
}

/// The arguments on a `component main = Name(args)` line, where the line
/// has that shape.
pub open spec fn main_line_args(t: Seq<char>) -> Option<Seq<i64>> {
    let tr = trim(t);
    if starts_with(tr, "component main"@) {
        match find_char(tr, '=') {
            Some(eq) => {
                let ae = trim(tr.skip(eq + 1));
                match find_char(ae, '(') {
                    Some(op) => match find_char(ae.skip(op + 1), ')') {
                        Some(cp) => Some(int_args(ae.subrange(op + 1, op + 1 + cp))),
                        None => None,
                    },
                    None => None,
                }
            },
            None => None,
        }
    } else {
        None
    }
}

pub open spec fn first_main_args(ls: Seq<Seq<char>>, i: int) -> Seq<i64>
    decreases ls.len() - i,
{
    if i < 0 || i >= ls.len() {
        Seq::empty()
    } else {
        match main_line_args(ls[i]) {
            Some(a) => a,
            None => first_main_args(ls, i + 1),
        }
    }
}

/// The integer-literal arguments of `component main = Name(...)` (0 for a
/// non-literal); empty where no such line exists.
pub open spec fn main_template_args(src: Seq<char>) -> Seq<i64> {
    first_main_args(lines(src), 0)
}

fn main_line_args_exec(t: &Vec<char>) -> (r: Option<Vec<i64>>)
    ensures
        match r {
            Some(a) => main_line_args(t@) == Some(a@),
            None => main_line_args(t@) is None,
        },
{
    let tr = trim_chars(t);
    if !starts_with_exec(&tr, &chars_of("component main")) {
        return None;
    }
    let eq = match find_char_in(&tr, '=') {
        Some(e) => e,
        None => {
            return None;
        },
    };
    let ae = trim_from(&tr, eq + 1);
    let op = match find_char_in(&ae, '(') {
        Some(p) => p,
        None => {
            return None;
        },
    };
    let after = copy_range(&ae, op + 1, ae.len());
    assert(after@ =~= ae@.skip(op + 1));
    let cp = match find_char_in(&after, ')') {
        Some(c) => c,
        None => {
            return None;
        },
    };
    let inner = copy_range(&ae, op + 1, op + 1 + cp);
    Some(int_args_exec(&inner))
}

/// Integer-literal arguments of `component main = Foo(...)`; non-literal
/// arguments give 0, and no `component main` line gives none.
pub fn find_main_template_args(source: &str) -> (r: Vec<i64>)
    ensures
        r@ == main_template_args(source@),
{
    let cs = chars_of(source);
    let ls = lines_exec(&cs);
    let mut i: usize = 0;
    while i < ls.len()
        invariant
            views(ls@) == lines(source@),
            i <= ls@.len(),
            main_template_args(source@) == first_main_args(views(ls@), i as int),
        decreases ls.len() - i,
    {
        assert(views(ls@)[i as int] == ls@[i as int]@);
        match main_line_args_exec(&ls[i]) {
            Some(a) => {
                return a;
            },
            None => {},
        }
        i += 1;
    }
    Vec::new()
}

// ----- generic parameters ----------------------------------------------------------

/// The generic parameters on a `template Name(params)` header for template
/// `target`, where the line is one.
pub open spec fn generic_params_line(t: Seq<char>, target: Seq<char>) -> Option<Seq<Seq<char>>> {
    let tr = trim(t);
    if starts_with(tr, "template "@) {
        match find_char(tr, '(') {
            Some(op) => if op >= 9 && trim(tr.subrange(9, op)) == target {
                Some(
                    match find_char(tr.skip(op + 1), ')') {
                        Some(cp) => arg_pieces(tr.subrange(op + 1, op + 1 + cp)),
                        None => Seq::empty(),
                    },
                )
            } else {
                None
            },
            None => None,
        }
    } else {
        None
    }
}

pub open spec fn first_generic_params(ls: Seq<Seq<char>>, i: int, target: Seq<char>) -> Seq<
    Seq<char>,
>
    decreases ls.len() - i,
{
    if i < 0 || i >= ls.len() {
        Seq::empty()
    } else {
        match generic_params_line(ls[i], target) {
            Some(p) => p,
            None => first_generic_params(ls, i + 1, target),
        }
    }
}

/// The generic parameter names of template `target`, in declaration
/// order.
pub open spec fn template_generic_params(src: Seq<char>, target: Option<Seq<char>>) -> Seq<
    Seq<char>,
> {
    match target {
        None => Seq::empty(),
        Some(t) => first_generic_params(lines(src), 0, t),
    }
}

fn generic_params_line_exec(t: &Vec<char>, target: &Vec<char>) -> (r: Option<Vec<Vec<char>>>)
    ensures
        match r {
            Some(p) => generic_params_line(t@, target@) == Some(views(p@)),
            None => generic_params_line(t@, target@) is None,
        },
{
    let tr = trim_chars(t);
    if !starts_with_exec(&tr, &chars_of("template ")) {
        return None;
    }
    let op = match find_char_in(&tr, '(') {
        Some(p) => p,
        None => {
            return None;
        },
    };
    if op < 9 {
        return None;
    }
    let nm = trim_chars(&copy_range(&tr, 9, op));
    if !crate::text::chars_eq(&nm, target) {
        return None;
    }
    let after = copy_range(&tr, op + 1, tr.len());
    assert(after@ =~= tr@.skip(op + 1));
    match find_char_in(&after, ')') {
        Some(cp) => {
            let inner = copy_range(&tr, op + 1, op + 1 + cp);
            Some(arg_pieces_exec(&inner))
        },
        None => {
            let v: Vec<Vec<char>> = Vec::new();
            assert(views(v@) =~= Seq::<Seq<char>>::empty());
            Some(v)
        },
    }
}

/// The generic parameter names of `template Foo(N, M, ...)` for
/// `template_name == Some("Foo")`, in declaration order.
#[verifier::loop_isolation(false)]
pub fn find_template_generic_params(source: &str, template_name: Option<&str>) -> (r: Vec<String>)
    ensures
        crate::parser::strs_view(r@) == template_generic_params(
            source@,
            match template_name {
                Some(t) => Some(t@),
                None => None,
            },
        ),
{
    let target = match template_name {
        None => {
            let v: Vec<String> = Vec::new();
            assert(crate::parser::strs_view(v@) =~= Seq::<Seq<char>>::empty());
            return v;
        },
        Some(t) => chars_of(t),
    };
    let cs = chars_of(source);
    let ls = lines_exec(&cs);
    let mut i: usize = 0;
    while i < ls.len()
        invariant
            views(ls@) == lines(source@),
            i <= ls@.len(),
            first_generic_params(lines(source@), 0, target@) == first_generic_params(
                views(ls@),
                i as int,
                target@,
            ),
        decreases ls.len() - i,
    {
        assert(views(ls@)[i as int] == ls@[i as int]@);
        match generic_params_line_exec(&ls[i], &target) {
            Some(p) => {
                let mut out: Vec<String> = Vec::new();
                let mut k: usize = 0;
                while k < p.len()
                    invariant
                        k <= p@.len(),
                        crate::parser::strs_view(out@) == views(p@).take(k as int),
                    decreases p.len() - k,
                {
                    let st = string_from_chars(&p[k]);
                    let ghost prev = out@;
                    out.push(st);
                    assert(views(p@).take(k + 1) =~= views(p@).take(k as int).push(p@[k as int]@));
                    assert(crate::parser::strs_view(out@) =~= crate::parser::strs_view(prev).push(
                        p@[k as int]@,
                    ));
                    k += 1;
                }
                assert(views(p@).take(p@.len() as int) =~= views(p@));
                return out;
            },
            None => {},
        }
        i += 1;
    }
    let v: Vec<String> = Vec::new();
    assert(crate::parser::strs_view(v@) =~= Seq::<Seq<char>>::empty());
    v
}

/// Generic parameters bound to template arguments by position; a
/// parameter or argument without a partner is dropped.
pub fn bind_generic_args(params: &[String], args: &[i64]) -> (r: Vec<(String, i64)>)
    ensures
        signals_pairs(r@) == Seq::new(
            if params@.len() <= args@.len() {
                params@.len()
            } else {
                args@.len()
            },
            |i: int| (params@[i]@, args@[i]),
        ),
{
    let n = if params.len() <= args.len() {
        params.len()
    } else {
        args.len()
    };
    let mut out: Vec<(String, i64)> = Vec::new();
    let mut i: usize = 0;
    while i < n
        invariant
            n <= params@.len(),
            n <= args@.len(),
            i <= n,
            signals_pairs(out@) == Seq::new(i as nat, |k: int| (params@[k]@, args@[k])),
        decreases n - i,
    {
        let ghost prev = out@;
        let nm = params[i].clone();
        assert(nm@ == params@[i as int]@);
        out.push((nm, args[i]));
        assert(signals_pairs(out@) =~= signals_pairs(prev).push((params@[i as int]@, args@[i as int])));
        assert(signals_pairs(out@) =~= Seq::new((i + 1) as nat, |k: int| (params@[k]@, args@[k])));
        i += 1;
    }
    out
}

pub open spec fn clamp0(n: i64) -> usize {
    (if n < 0 {
        0
    } else {
        n
    }) as usize
}

/// What a dimension expression comes to: an integer literal, a generic
/// parameter's value (negative ones as 0), or 1 when it is neither.
pub open spec fn dim_value(e: Seq<char>, env: Map<Seq<char>, i64>) -> usize {
    let t = trim(e);
    match parse_i64(t) {
        Some(n) => clamp0(n),
        None => if env.contains_key(t) {
            clamp0(env[t])
        } else {
            1
        },
    }
}

/// Resolves a dimension expression with the generic parameters' values.
pub fn resolve_dim(expr: &str, generic_env: &Vec<(String, i64)>) -> (r: usize)
    ensures
        r == dim_value(expr@, signals_map(generic_env@)),
{
    let t = trim_chars(&chars_of(expr));
    match parse_i64_exec(&t) {
        Some(n) => {
            #[verifier::truncate]
            ((if n < 0 {
                0
            } else {
                n
            }) as usize)
        },
        None => {
            let ts = string_from_chars(&t);
            match signal_get(generic_env, ts.as_str()) {
                Some(v) => {
                    #[verifier::truncate]
                    ((if v < 0 {
                        0
                    } else {
                        v
                    }) as usize)
                },
                None => 1,
            }
        },
    }
}

// ----- braces -----------------------------------------------------------------------

pub open spec fn is_brace(c: char) -> bool {
    c == '{' || c == '}'
}

/// The number of `{` and `}` characters.
pub open spec fn braces(s: Seq<char>) -> nat
    decreases s.len(),
{
    if s.len() == 0 {
        0
    } else {
        braces(s.drop_last()) + if is_brace(s.last()) {
            1nat
        } else {
            0nat
        }
    }
}

pub open spec fn braces_sum(ls: Seq<Seq<char>>) -> nat
    decreases ls.len(),
{
    if ls.len() == 0 {
        0
    } else {
        braces_sum(ls.drop_last()) + braces(ls.last())
    }
}

proof fn lemma_split_braces(s: Seq<char>, sep: char)
    requires
        !is_brace(sep),
    ensures
        braces_sum(split_on(s, sep)) == braces(s),
    decreases s.len(),
{
    if s.len() == 0 {
        let e = Seq::<char>::empty();
        assert(split_on(s, sep) == seq![e]);
        assert(seq![e].drop_last() =~= Seq::<Seq<char>>::empty());
        assert(braces_sum(seq![e]) == braces_sum(Seq::<Seq<char>>::empty()) + braces(e));
    } else {
        lemma_split_braces(s.drop_last(), sep);
        crate::text::lemma_split_on_nonempty(s.drop_last(), sep);
        let rest = split_on(s.drop_last(), sep);
        let c = s.last();
        assert(braces(s) == braces(s.drop_last()) + if is_brace(c) {
            1nat
        } else {
            0nat
        });
        if c == sep {
            let u = rest.push(Seq::<char>::empty());
            assert(u.drop_last() =~= rest);
            assert(braces(Seq::<char>::empty()) == 0);
            assert(braces_sum(u) == braces_sum(rest) + braces(Seq::<char>::empty()));
        } else {
            let x = rest.last().push(c);
            let u = rest.update(rest.len() - 1, x);
            assert(u.drop_last() =~= rest.drop_last());
            assert(u.last() == x);
            assert(x.drop_last() =~= rest.last());
            assert(braces(x) == braces(rest.last()) + if is_brace(c) {
                1nat
            } else {
                0nat
            });
            assert(braces_sum(u) == braces_sum(rest.drop_last()) + braces(x));
            assert(braces_sum(rest) == braces_sum(rest.drop_last()) + braces(rest.last()));
        }
    }
}

proof fn lemma_braces_sum_same(a: Seq<Seq<char>>, b: Seq<Seq<char>>)
    requires
        a.len() == b.len(),
        forall|k: int| 0 <= k < a.len() ==> braces(#[trigger] a[k]) == braces(b[k]),
    ensures
        braces_sum(a) == braces_sum(b),
    decreases a.len(),
{
    if a.len() > 0 {
        lemma_braces_sum_same(a.drop_last(), b.drop_last());
    }
}

proof fn lemma_braces_sum_prefix(ls: Seq<Seq<char>>, n: int)
    requires
        0 <= n <= ls.len(),
    ensures
        braces_sum(ls.take(n)) <= braces_sum(ls),
    decreases ls.len() - n,
{
    if n < ls.len() {
        lemma_braces_sum_prefix(ls, n + 1);
        assert(ls.take(n + 1).drop_last() =~= ls.take(n));
    } else {
        assert(ls.take(n) =~= ls);
    }
}

/// The braces of a source are those of its lines.
proof fn lemma_lines_braces(s: Seq<char>)
    ensures
        braces_sum(lines(s)) <= braces(s),
{
    let parts = split_on(s, '\n');
    lemma_split_braces(s, '\n');
    crate::text::lemma_split_on_nonempty(s, '\n');
    let kept = if parts.last().len() == 0 {
        parts.drop_last()
    } else {
        parts
    };
    assert forall|k: int| 0 <= k < kept.len() implies braces(#[trigger] lines(s)[k]) == braces(
        kept[k],
    ) by {
        let p = kept[k];
        if k < parts.len() - 1 && p.len() > 0 && p.last() == '\r' {
            assert(lines(s)[k] == p.drop_last());
        }
    }
    lemma_braces_sum_same(lines(s), kept);
    if parts.last().len() == 0 {
        assert(braces_sum(parts) == braces_sum(parts.drop_last()) + braces(parts.last()));
    }
}

proof fn lemma_braces_step(s: Seq<char>, k: int)
    requires
        0 <= k < s.len(),
    ensures
        braces(s.take(k + 1)) == braces(s.take(k)) + if is_brace(s[k]) {
            1nat
        } else {
            0nat
        },
{
    assert(s.take(k + 1).drop_last() =~= s.take(k));
}

proof fn lemma_braces_lines_step(ls: Seq<Seq<char>>, i: int)
    requires
        0 <= i < ls.len(),
    ensures
        braces_sum(ls.take(i + 1)) == braces_sum(ls.take(i)) + braces(ls[i]),
{
    assert(ls.take(i + 1).drop_last() =~= ls.take(i));
}

/// The lines of a source, with how many braces come before line `i`.
proof fn lemma_braces_before(src: Seq<char>, ls: Seq<Seq<char>>, i: int)
    requires
        ls == lines(src),
        0 <= i < ls.len(),
    ensures
        braces_sum(ls.take(i)) + braces(ls[i]) <= braces(src),
{
    lemma_lines_braces(src);
    lemma_braces_lines_step(ls, i);
    lemma_braces_sum_prefix(ls, i + 1);
}

/// Scans a line's braces from index `k` with nesting depth `depth`, and
/// stops where a `}` brings it to 0 or below: whether that happened, and
/// the depth then.
pub open spec fn scan_close(t: Seq<char>, k: int, depth: int) -> (bool, int)
    decreases t.len() - k,
{
    if k < 0 || k >= t.len() {
        (false, depth)
    } else if t[k] == '{' {
        scan_close(t, k + 1, depth + 1)
    } else if t[k] == '}' {
        if depth - 1 <= 0 {
            (true, depth - 1)
        } else {
            scan_close(t, k + 1, depth - 1)
        }
    } else {
        scan_close(t, k + 1, depth)
    }
}

fn scan_close_exec(t: &Vec<char>, depth0: i128, Ghost(seen): Ghost<int>) -> (r: (bool, i128))
    requires
        -seen <= depth0 <= seen,
        seen + braces(t@) <= usize::MAX,
    ensures
        (r.0, r.1 as int) == scan_close(t@, 0, depth0 as int),
        -(seen + braces(t@)) <= r.1 <= seen + braces(t@),
{
    let mut depth = depth0;
    let mut k: usize = 0;
    assert(t@.take(0) =~= Seq::<char>::empty());
    while k < t.len()
        invariant
            k <= t@.len(),
            -(seen + braces(t@.take(k as int))) <= depth <= seen + braces(t@.take(k as int)),
            braces(t@.take(k as int)) <= braces(t@),
            seen + braces(t@) <= usize::MAX,
            scan_close(t@, 0, depth0 as int) == scan_close(t@, k as int, depth as int),
        decreases t.len() - k,
    {
        proof {
            lemma_braces_step(t@, k as int);
            lemma_braces_prefix_le(t@, k + 1);
        }
        let c = t[k];
        if c == '{' {
            depth = depth + 1;
        } else if c == '}' {
            depth = depth - 1;
            if depth <= 0 {
                return (true, depth);
            }
        }
        k += 1;
    }
    assert(t@.take(t@.len() as int) =~= t@);
    (false, depth)
}

/// A text has no more braces than characters.
proof fn lemma_braces_le_len(s: Seq<char>)
    ensures
        braces(s) <= s.len(),
    decreases s.len(),
{
    if s.len() > 0 {
        lemma_braces_le_len(s.drop_last());
    }
}

proof fn lemma_braces_prefix_le(s: Seq<char>, n: int)
    requires
        0 <= n <= s.len(),
    ensures
        braces(s.take(n)) <= braces(s),
    decreases s.len() - n,
{
    if n < s.len() {
        lemma_braces_prefix_le(s, n + 1);
        lemma_braces_step(s, n);
    } else {
        assert(s.take(n) =~= s);
    }
}

// ----- component instances -----------------------------------------------------------

/// A component instantiation `component name = Template(args);`.
#[derive(Debug, Clone, PartialEq, Eq)]
pub struct ComponentInstance {
    /// Instance name (e.g. `adder`).
    pub name: String,
    /// Template instantiated (e.g. `Adder`).
    pub template_name: String,
    /// 1-based line of the instantiation.
    pub line: u32,
    /// The template body that holds the declaration; `None` at file scope
    /// (`component main = ...`).
    pub parent_template: Option<String>,
    /// Integer-literal template arguments (0 for a non-literal).
    pub template_args: Vec<i64>,
}

pub struct ComponentInstanceV {
    pub name: Seq<char>,
    pub template_name: Seq<char>,
    pub line: u32,
    pub parent_template: Option<Seq<char>>,
    pub template_args: Seq<i64>,
}

impl View for ComponentInstance {
    type V = ComponentInstanceV;

    open spec fn view(&self) -> ComponentInstanceV {
        ComponentInstanceV {
            name: self.name@,
            template_name: self.template_name@,
            line: self.line,
            parent_template: match self.parent_template {
                Some(p) => Some(p@),
                None => None,
            },
            template_args: self.template_args@,
        }
    }
}

pub open spec fn components_view(v: Seq<ComponentInstance>) -> Seq<ComponentInstanceV> {
    v.map_values(|c: ComponentInstance| c@)
}

/// The template named by a `template Name(` header.
pub open spec fn template_header(tr: Seq<char>) -> Option<Seq<char>> {
    match strip_prefix(tr, "template "@) {
        Some(after) => match find_char(after, '(') {
            Some(pp) => {
                let name = trim(after.take(pp));
                if name.len() > 0 {
                    Some(name)
                } else {
                    None
                }
            },
            None => None,
        },
        None => None,
    }
}

/// The instantiation on a trimmed line, declared inside template `parent`.
pub open spec fn component_of(tr: Seq<char>, line: u32, parent: Option<Seq<char>>) -> Option<
    ComponentInstanceV,
> {
    match strip_prefix(tr, "component "@) {
        None => None,
        Some(ac) => match find_char(ac, '=') {
            None => None,
            Some(eq) => {
                let name = trim(ac.take(eq));
                let ae = trim(ac.skip(eq + 1));
                match find_char(ae, '(') {
                    None => None,
                    Some(pp) => {
                        let tn = trim(ae.take(pp));
                        let args = match find_char(ae.skip(pp + 1), ')') {
                            Some(cp) => int_args(ae.subrange(pp + 1, pp + 1 + cp)),
                            None => Seq::empty(),
                        };
                        if name.len() > 0 && tn.len() > 0 {
                            Some(
                                ComponentInstanceV {
                                    name,
                                    template_name: tn,
                                    line,
                                    parent_template: parent,
                                    template_args: args,
                                },
                            )
                        } else {
                            None
                        }
                    },
                }
            },
        },
    }
}

/// The scan over lines: the template body in scope, its brace depth, and
/// the instantiations found.
pub struct CompScanV {
    pub cur: Option<Seq<char>>,
    pub depth: int,
    pub comps: Seq<ComponentInstanceV>,
}

pub open spec fn comp_line_step(st: CompScanV, t: Seq<char>, line: u32) -> CompScanV {
    let tr = trim(t);
    let (cur1, d1) = if st.cur is None {
        match template_header(tr) {
            Some(n) => (Some(n), 0),
            None => (st.cur, st.depth),
        }
    } else {
        (st.cur, st.depth)
    };
    let comps1 = match component_of(tr, line, cur1) {
        Some(c) => st.comps.push(c),
        None => st.comps,
    };
    if cur1 is Some {
        let (closed, d2) = scan_close(tr, 0, d1);
        CompScanV {
            cur: if closed {
                None
            } else {
                cur1
            },
            depth: d2,
            comps: comps1,
        }
    } else {
        CompScanV { cur: cur1, depth: d1, comps: comps1 }
    }
}

pub open spec fn comp_scan(ls: Seq<Seq<char>>, n: int) -> CompScanV
    decreases n,
{
    if n <= 0 || n > ls.len() {
        CompScanV { cur: None, depth: 0, comps: Seq::empty() }
    } else {
        comp_line_step(comp_scan(ls, n - 1), ls[n - 1], line_no(n - 1))
    }
}

/// The component instantiations of a source, in line order, each with the
/// template body it is declared in.
pub open spec fn component_instances(src: Seq<char>) -> Seq<ComponentInstanceV> {
    comp_scan(lines(src), lines(src).len() as int).comps
}

fn template_header_exec(tr: &Vec<char>) -> (r: Option<Vec<char>>)
    ensures
        match r {
            Some(n) => template_header(tr@) == Some(n@),
            None => template_header(tr@) is None,
        },
{
    let after = match strip_prefix_exec(tr, &chars_of("template ")) {
        Some(a) => a,
        None => {
            return None;
        },
    };
    let pp = match find_char_in(&after, '(') {
        Some(p) => p,
        None => {
            return None;
        },
    };
    let name = trim_to(&after, pp);
    if name.len() > 0 {
        Some(name)
    } else {
        None
    }
}

fn copy_opt_chars(o: &Option<Vec<char>>) -> (r: Option<String>)
    ensures
        match r {
            Some(s) => o matches Some(v) && s@ == v@,
            None => o is None,
        },
{
    match o {
        Some(v) => Some(string_from_chars(v)),
        None => None,
    }
}

fn component_line(tr: &Vec<char>, line: u32, parent: &Option<Vec<char>>) -> (r: Option<
    ComponentInstance,
>)
    ensures
        match r {
            Some(c) => component_of(
                tr@,
                line,
                match parent {
                    Some(p) => Some(p@),
                    None => None,
                },
            ) == Some(c@),
            None => component_of(
                tr@,
                line,
                match parent {
                    Some(p) => Some(p@),
                    None => None,
                },
            ) is None,
        },
{
    let ac = match strip_prefix_exec(tr, &chars_of("component ")) {
        Some(a) => a,
        None => {
            return None;
        },
    };
    let eq = match find_char_in(&ac, '=') {
        Some(e) => e,
        None => {
            return None;
        },
    };
    let name = trim_to(&ac, eq);
    let ae = trim_from(&ac, eq + 1);
    let pp = match find_char_in(&ae, '(') {
        Some(p) => p,
        None => {
            return None;
        },
    };
    let tn = trim_to(&ae, pp);
    let after = copy_range(&ae, pp + 1, ae.len());
    assert(after@ =~= ae@.skip(pp + 1));
    let args = match find_char_in(&after, ')') {
        Some(cp) => {
            let inner = copy_range(&ae, pp + 1, pp + 1 + cp);
            int_args_exec(&inner)
        },
        None => Vec::new(),
    };
    if name.len() > 0 && tn.len() > 0 {
        Some(
            ComponentInstance {
                name: string_from_chars(&name),
                template_name: string_from_chars(&tn),
                line,
                parent_template: copy_opt_chars(parent),
                template_args: args,
            },
        )
    } else {
        None
    }
}

/// Component instantiations of a Circom source, in line order; each
/// records the template body it is declared inside (`None` at file
/// scope).
pub fn parse_component_instances(source: &str) -> (r: Vec<ComponentInstance>)
    ensures
        components_view(r@) == component_instances(source@),
{
    let cs = chars_of(source);
    proof {
        lemma_braces_le_len(source@);
    }
    let ls = lines_exec(&cs);
    let ghost lv = views(ls@);
    let mut comps: Vec<ComponentInstance> = Vec::new();
    let mut cur: Option<Vec<char>> = None;
    let mut depth: i128 = 0;
    let mut i: usize = 0;
    assert(components_view(comps@) =~= Seq::<ComponentInstanceV>::empty());
    assert(lv.take(0) =~= Seq::<Seq<char>>::empty());
    while i < ls.len()
        invariant
            lv == views(ls@),
            lv == lines(source@),
            braces(source@) <= usize::MAX,
            i <= ls@.len(),
            -braces_sum(lv.take(i as int)) <= depth <= braces_sum(lv.take(i as int)),
            comp_scan(lv, i as int) == (CompScanV {
                cur: match cur {
                    Some(p) => Some(p@),
                    None => None,
                },
                depth: depth as int,
                comps: components_view(comps@),
            }),
        decreases ls.len() - i,
    {
        proof {
            lemma_braces_before(source@, lv, i as int);
            lemma_braces_lines_step(lv, i as int);
        }
        let ghost seen: int = braces_sum(lv.take(i as int)) as int;
        assert(lv[i as int] == ls@[i as int]@);
        let line = line_number(i);
        let tr = trim_chars(&ls[i]);
        proof {
            lemma_trim_braces(ls@[i as int]@);
        }
        if cur.is_none() {
            match template_header_exec(&tr) {
                Some(n) => {
                    cur = Some(n);
                    depth = 0;
                },
                None => {},
            }
        }
        match component_line(&tr, line, &cur) {
            Some(c) => {
                let ghost cv = c@;
                let ghost prev = comps@;
                comps.push(c);
                assert(components_view(comps@) =~= components_view(prev).push(cv));
            },
            None => {},
        }
        if cur.is_some() {
            let (closed, d2) = scan_close_exec(&tr, depth, Ghost(seen));
            depth = d2;
            if closed {
                cur = None;
            }
        }
        i += 1;
    }
    comps
}

proof fn lemma_trim_braces(s: Seq<char>)
    ensures
        braces(trim(s)) <= braces(s),
{
    let (a, b) = crate::text::trim_bounds(s);
    lemma_braces_subrange(s, a, b);
}

proof fn lemma_braces_subrange(s: Seq<char>, a: int, b: int)
    requires
        0 <= a <= b <= s.len(),
    ensures
        braces(s.subrange(a, b)) <= braces(s),
    decreases s.len(),
{
    if b < s.len() {
        lemma_braces_subrange(s.drop_last(), a, b);
        assert(s.drop_last().subrange(a, b) =~= s.subrange(a, b));
    } else if a < b {
        let t = s.subrange(a, b);
        lemma_braces_subrange(s.drop_last(), a, b - 1);
        assert(t.drop_last() =~= s.drop_last().subrange(a, b - 1));
    } else {
        assert(s.subrange(a, b).len() == 0);
    }
}

// ----- template definitions ------------------------------------------------------

/// A template definition with its `signal input` names in source order.
#[derive(Debug, Clone)]
pub struct TemplateDef {
    pub name: String,
    /// 1-based line of the `template` header.
    pub line: u32,
    pub input_signals: Vec<String>,
}

pub struct TemplateDefV {
    pub name: Seq<char>,
    pub line: u32,
    pub input_signals: Seq<Seq<char>>,
}

impl View for TemplateDef {
    type V = TemplateDefV;

    open spec fn view(&self) -> TemplateDefV {
        TemplateDefV {
            name: self.name@,
            line: self.line,
            input_signals: crate::parser::strs_view(self.input_signals@),
        }
    }
}

pub open spec fn template_defs_view(v: Seq<TemplateDef>) -> Seq<TemplateDefV> {
    v.map_values(|t: TemplateDef| t@)
}

/// The name declared by a `signal input name;` line.
pub open spec fn input_name_of(tr: Seq<char>) -> Option<Seq<char>> {
    match strip_prefix(tr, "signal input "@) {
        Some(rest) => {
            let nm = trim(trim_end_char(trim(rest), ';'));
            if nm.len() > 0 {
                Some(nm)
            } else {
                None
            }
        },
        None => None,
    }
}

/// The scan over lines: the template being read with its brace depth, and
/// the templates whose bodies have closed.
pub struct DefScanV {
    pub cur: Option<(TemplateDefV, int)>,
    pub done: Seq<TemplateDefV>,
}

pub open spec fn def_line_step(st: DefScanV, t: Seq<char>, line: u32) -> DefScanV {
    let tr = trim(t);
    let cur1 = if st.cur is None {
        match template_header(tr) {
            Some(n) => Some((TemplateDefV { name: n, line, input_signals: Seq::empty() }, 0int)),
            None => None,
        }
    } else {
        st.cur
    };
    match cur1 {
        None => DefScanV { cur: None, done: st.done },
        Some((tm, d)) => {
            let tm2 = match input_name_of(tr) {
                Some(nm) => TemplateDefV {
                    name: tm.name,
                    line: tm.line,
                    input_signals: tm.input_signals.push(nm),
                },
                None => tm,
            };
            let (closed, d2) = scan_close(tr, 0, d);
            if closed {
                DefScanV { cur: None, done: st.done.push(tm2) }
            } else {
                DefScanV { cur: Some((tm2, d2)), done: st.done }
            }
        },
    }
}

pub open spec fn def_scan(ls: Seq<Seq<char>>, n: int) -> DefScanV
    decreases n,
{
    if n <= 0 || n > ls.len() {
        DefScanV { cur: None, done: Seq::empty() }
    } else {
        def_line_step(def_scan(ls, n - 1), ls[n - 1], line_no(n - 1))
    }
}

/// The template definitions of a source in order; one whose body never
/// closes is kept as read.
pub open spec fn template_definitions(src: Seq<char>) -> Seq<TemplateDefV> {
    let st = def_scan(lines(src), lines(src).len() as int);
    match st.cur {
        Some((tm, _)) => st.done.push(tm),
        None => st.done,
    }
}

fn input_name_exec(tr: &Vec<char>) -> (r: Option<Vec<char>>)
    ensures
        match r {
            Some(n) => input_name_of(tr@) == Some(n@),
            None => input_name_of(tr@) is None,
        },
{
    match strip_prefix_exec(tr, &chars_of("signal input ")) {
        Some(rest) => {
            let nm = trim_chars(&trim_end_char_exec(&trim_chars(&rest), ';'));
            if nm.len() > 0 {
                Some(nm)
            } else {
                None
            }
        },
        None => None,
    }
}

/// Template definitions of a Circom source, each with the names of its
/// `signal input` declarations in source order.
pub fn parse_template_definitions(source: &str) -> (r: Vec<TemplateDef>)
    ensures
        template_defs_view(r@) == template_definitions(source@),
{
    let cs = chars_of(source);
    proof {
        lemma_braces_le_len(source@);
    }
    let ls = lines_exec(&cs);
    let ghost lv = views(ls@);
    let mut done: Vec<TemplateDef> = Vec::new();
    let mut cur: Option<TemplateDef> = None;
    let mut depth: i128 = 0;
    let mut i: usize = 0;
    assert(template_defs_view(done@) =~= Seq::<TemplateDefV>::empty());
    assert(lv.take(0) =~= Seq::<Seq<char>>::empty());
    while i < ls.len()
        invariant
            lv == views(ls@),
            lv == lines(source@),
            braces(source@) <= usize::MAX,
            i <= ls@.len(),
            -braces_sum(lv.take(i as int)) <= depth <= braces_sum(lv.take(i as int)),
            def_scan(lv, i as int) == (DefScanV {
                cur: match cur {
                    Some(t) => Some((t@, depth as int)),
                    None => None,
                },
                done: template_defs_view(done@),
            }),
        decreases ls.len() - i,
    {
        proof {
            lemma_braces_before(source@, lv, i as int);
            lemma_braces_lines_step(lv, i as int);
            lemma_trim_braces(ls@[i as int]@);
        }
        let ghost seen: int = braces_sum(lv.take(i as int)) as int;
        assert(lv[i as int] == ls@[i as int]@);
        let line = line_number(i);
        let tr = trim_chars(&ls[i]);
        if cur.is_none() {
            match template_header_exec(&tr) {
                Some(n) => {
                    let empty: Vec<String> = Vec::new();
                    assert(crate::parser::strs_view(empty@) =~= Seq::<Seq<char>>::empty());
                    cur = Some(TemplateDef { name: string_from_chars(&n), line, input_signals: empty });
                    depth = 0;
                },
                None => {},
            }
        }
        match cur {
            None => {},
            Some(mut tm) => {
                match input_name_exec(&tr) {
                    Some(nm) => {
                        let ghost prev = tm.input_signals@;
                        let st = string_from_chars(&nm);
                        tm.input_signals.push(st);
                        assert(crate::parser::strs_view(tm.input_signals@) =~= crate::parser::strs_view(
                            prev,
                        ).push(nm@));
                    },
                    None => {},
                }
                let (closed, d2) = scan_close_exec(&tr, depth, Ghost(seen));
                depth = d2;
                if closed {
                    let ghost tv = tm@;
                    let ghost prev = done@;
                    done.push(tm);
                    assert(template_defs_view(done@) =~= template_defs_view(prev).push(tv));
                    cur = None;
                } else {
                    cur = Some(tm);
                }
            },
        }
        i += 1;
    }
    match cur {
        Some(tm) => {
            let ghost tv = tm@;
            let ghost prev = done@;
            done.push(tm);
            assert(template_defs_view(done@) =~= template_defs_view(prev).push(tv));
        },
        None => {},
    }
    done
}

// ----- input signal declarations ---------------------------------------------------

pub open spec fn is_name_char(c: char) -> bool {
    ('a' <= c <= 'z') || ('A' <= c <= 'Z') || ('0' <= c <= '9') || c == '_'
}

pub open spec fn name_end(s: Seq<char>, i: int) -> int
    decreases s.len() - i,
{
    if 0 <= i < s.len() && is_name_char(s[i]) {
        name_end(s, i + 1)
    } else {
        i
    }
}

/// Where the bracket scan from `i` at nesting `depth` stops: one past the
/// `]` that brings the nesting to 0, or the end.
pub open spec fn bracket_end(s: Seq<char>, i: int, depth: int) -> int
    decreases s.len() - i,
{
    if 0 <= i < s.len() && depth > 0 {
        bracket_end(
            s,
            i + 1,
            depth + if s[i] == '[' {
                1int
            } else if s[i] == ']' {
                -1int
            } else {
                0int
            },
        )
    } else {
        i
    }
}

/// The dimension texts `[d1][d2]...` from index `i`; `None` where a `[`
/// ends the text (the slice before it would be reversed).
pub open spec fn dims_from(s: Seq<char>, i: int) -> Option<Seq<Seq<char>>>
    decreases s.len() - i,
{
    if 0 <= i < s.len() && s[i] == '[' {
        let start = i + 1;
        let j = bracket_end(s, start, 1);
        if j <= start || j > s.len() {
            None
        } else {
            match dims_from(s, j) {
                None => None,
                Some(rest) => Some(seq![trim(s.subrange(start, j - 1))] + rest),
            }
        }
    } else {
        Some(Seq::empty())
    }
}

/// `name[d1][d2]...` split into the name and the dimension texts.
pub open spec fn split_dims(s: Seq<char>) -> Option<(Seq<char>, Seq<Seq<char>>)> {
    let n = name_end(s, 0);
    match dims_from(s, n) {
        None => None,
        Some(d) => Some((s.take(n), d)),
    }
}

proof fn lemma_bracket_end_bounds(s: Seq<char>, i: int, depth: int)
    requires
        0 <= i <= s.len(),
    ensures
        i <= bracket_end(s, i, depth) <= s.len(),
        i < s.len() && depth > 0 ==> i < bracket_end(s, i, depth),
    decreases s.len() - i,
{
    if 0 <= i < s.len() && depth > 0 {
        let d2 = depth + if s[i] == '[' {
            1int
        } else if s[i] == ']' {
            -1int
        } else {
            0int
        };
        lemma_bracket_end_bounds(s, i + 1, d2);
    }
}

proof fn lemma_name_end_bounds(s: Seq<char>, i: int)
    requires
        0 <= i <= s.len(),
    ensures
        i <= name_end(s, i) <= s.len(),
    decreases s.len() - i,
{
    if 0 <= i < s.len() && is_name_char(s[i]) {
        lemma_name_end_bounds(s, i + 1);
    }
}

/// Splits `name[d1][d2]...` into the name and each dimension's text.
pub fn split_array_dims(decl: &str) -> (r: (String, Vec<String>))
    requires
        split_dims(decl@) is Some,
    ensures
        (r.0@, crate::parser::strs_view(r.1@)) == split_dims(decl@)->0,
{
    let s = chars_of(decl);
    match split_array_dims_chars(&s) {
        Some(x) => x,
        None => {
            proof {
                assert(false);
            }
            (String::new(), Vec::new())
        },
    }
}

fn split_array_dims_chars(s: &Vec<char>) -> (r: Option<(String, Vec<String>)>)
    ensures
        match r {
            Some(x) => split_dims(s@) == Some((x.0@, crate::parser::strs_view(x.1@))),
            None => split_dims(s@) is None,
        },
{
    let n = s.len();
    let mut i: usize = 0;
    while i < n && (('a' <= s[i] && s[i] <= 'z') || ('A' <= s[i] && s[i] <= 'Z') || ('0' <= s[i]
        && s[i] <= '9') || s[i] == '_')
        invariant
            n == s@.len(),
            i <= n,
            name_end(s@, 0) == name_end(s@, i as int),
        decreases n - i,
    {
        i += 1;
    }
    let name = string_from_chars(&copy_range(s, 0, i));
    assert(s@.subrange(0, i as int) =~= s@.take(i as int));
    let mut dims: Vec<String> = Vec::new();
    assert(crate::parser::strs_view(dims@) =~= Seq::<Seq<char>>::empty());
    while i < n && s[i] == '['
        invariant
            n == s@.len(),
            i <= n,
            name@ == s@.take(name_end(s@, 0)),
            dims_from(s@, name_end(s@, 0)) == match dims_from(s@, i as int) {
                Some(rest) => Some(crate::parser::strs_view(dims@) + rest),
                None => None,
            },
        decreases n - i,
    {
        let start = i + 1;
        let mut depth: usize = 1;
        let mut j = start;
        while j < n && depth > 0
            invariant
                n == s@.len(),
                start <= j <= n,
                1 <= start,
                depth <= j - start + 1,
                bracket_end(s@, start as int, 1) == bracket_end(s@, j as int, depth as int),
            decreases n - j,
        {
            if s[j] == '[' {
                depth = depth + 1;
            } else if s[j] == ']' {
                depth = depth - 1;
            }
            j += 1;
        }
        proof {
            lemma_bracket_end_bounds(s@, start as int, 1);
        }
        if j <= start {
            return None;
        }
        let dim = trim_chars(&copy_range(s, start, j - 1));
        let ghost dv = dim@;
        let ghost prev = dims@;
        dims.push(string_from_chars(&dim));
        proof {
            assert(crate::parser::strs_view(dims@) =~= crate::parser::strs_view(prev).push(dv));
            match dims_from(s@, j as int) {
                Some(rest) => {
                    assert(seq![dv] + rest =~= dims_from(s@, i as int)->0);
                    assert(crate::parser::strs_view(prev) + (seq![dv] + rest) =~= crate::parser::strs_view(
                        dims@,
                    ) + rest);
                },
                None => {},
            }
        }
        i = j;
    }
    proof {
        assert(dims_from(s@, i as int) == Some(Seq::<Seq<char>>::empty()));
        assert(crate::parser::strs_view(dims@) + Seq::<Seq<char>>::empty() =~= crate::parser::strs_view(
            dims@,
        ));
    }
    Some((name, dims))
}

/// A `signal input` declaration: the name, and the text of each array
/// dimension (empty for a scalar).
#[derive(Debug, Clone, PartialEq, Eq)]
pub struct InputSignalDecl {
    pub name: String,
    pub dims: Vec<String>,
}

pub struct InputSignalDeclV {
    pub name: Seq<char>,
    pub dims: Seq<Seq<char>>,
}

impl View for InputSignalDecl {
    type V = InputSignalDeclV;

    open spec fn view(&self) -> InputSignalDeclV {
        InputSignalDeclV { name: self.name@, dims: crate::parser::strs_view(self.dims@) }
    }
}

pub open spec fn input_decls_view(v: Seq<InputSignalDecl>) -> Seq<InputSignalDeclV> {
    v.map_values(|d: InputSignalDecl| d@)
}

/// Counts a line's braces from index `k`; inside a named target template,
/// a `}` that brings the depth to 0 or below leaves it.
pub open spec fn brace_track(t: Seq<char>, k: int, depth: int, inside: bool, named: bool) -> (
    int,
    bool,
)
    decreases t.len() - k,
{
    if k < 0 || k >= t.len() {
        (depth, inside)
    } else if t[k] == '{' {
        brace_track(t, k + 1, depth + 1, inside, named)
    } else if t[k] == '}' {
        let d = depth - 1;
        brace_track(
            t,
            k + 1,
            d,
            if d <= 0 && named {
                false
            } else {
                inside
            },
            named,
        )
    } else {
        brace_track(t, k + 1, depth, inside, named)
    }
}

/// Whether a trimmed line is the header of template `target`.
pub open spec fn is_header_of(tr: Seq<char>, target: Seq<char>) -> bool {
    starts_with(tr, "template "@) && match find_char(tr, '(') {
        Some(pp) => pp >= 9 && trim(tr.subrange(9, pp)) == target,
        None => false,
    }
}

/// The scan over lines: whether the target template is being read, its
/// brace depth, and the declarations found (`None` once a declaration's
/// dimensions cannot be split).
pub struct InScanV {
    pub inside: bool,
    pub depth: int,
    pub decls: Option<Seq<InputSignalDeclV>>,
}

pub open spec fn in_line_step(st: InScanV, t: Seq<char>, target: Option<Seq<char>>) -> InScanV {
    match st.decls {
        None => st,
        Some(acc) => {
            let tr = trim(t);
            let (in1, d1) = match target {
                Some(tg) => if is_header_of(tr, tg) {
                    (true, 0int)
                } else {
                    (st.inside, st.depth)
                },
                None => (st.inside, st.depth),
            };
            if in1 {
                let (d2, in2) = brace_track(tr, 0, d1, in1, target is Some);
                match input_name_of(tr) {
                    Some(raw) => match split_dims(raw) {
                        None => InScanV { inside: in2, depth: d2, decls: None },
                        Some((n, ds)) => InScanV {
                            inside: in2,
                            depth: d2,
                            decls: Some(acc.push(InputSignalDeclV { name: n, dims: ds })),
                        },
                    },
                    None => InScanV { inside: in2, depth: d2, decls: Some(acc) },
                }
            } else {
                InScanV { inside: in1, depth: d1, decls: Some(acc) }
            }
        },
    }
}

pub open spec fn in_scan(ls: Seq<Seq<char>>, n: int, target: Option<Seq<char>>) -> InScanV
    decreases n,
{
    if n <= 0 || n > ls.len() {
        InScanV { inside: target is None, depth: 0, decls: Some(Seq::empty()) }
    } else {
        in_line_step(in_scan(ls, n - 1, target), ls[n - 1], target)
    }
}

/// The `signal input` declarations of template `target` (of the whole
/// source when `target` is `None`), with their dimension texts.
pub open spec fn input_decls_of(src: Seq<char>, target: Option<Seq<char>>) -> Option<
    Seq<InputSignalDeclV>,
> {
    in_scan(lines(src), lines(src).len() as int, target).decls
}

fn brace_track_exec(
    t: &Vec<char>,
    depth0: i128,
    inside0: bool,
    named: bool,
    Ghost(seen): Ghost<int>,
) -> (r: (i128, bool))
    requires
        -seen <= depth0 <= seen,
        seen + braces(t@) <= usize::MAX,
    ensures
        (r.0 as int, r.1) == brace_track(t@, 0, depth0 as int, inside0, named),
        -(seen + braces(t@)) <= r.0 <= seen + braces(t@),
{
    let mut depth = depth0;
    let mut inside = inside0;
    let mut k: usize = 0;
    assert(t@.take(0) =~= Seq::<char>::empty());
    while k < t.len()
        invariant
            k <= t@.len(),
            -(seen + braces(t@.take(k as int))) <= depth <= seen + braces(t@.take(k as int)),
            seen + braces(t@) <= usize::MAX,
            brace_track(t@, 0, depth0 as int, inside0, named) == brace_track(
                t@,
                k as int,
                depth as int,
                inside,
                named,
            ),
        decreases t.len() - k,
    {
        proof {
            lemma_braces_step(t@, k as int);
            lemma_braces_prefix_le(t@, k + 1);
        }
        let c = t[k];
        if c == '{' {
            depth = depth + 1;
        } else if c == '}' {
            depth = depth - 1;
            if depth <= 0 && named {
                inside = false;
            }
        }
        k += 1;
    }
    assert(t@.take(t@.len() as int) =~= t@);
    (depth, inside)
}

fn is_header_of_exec(tr: &Vec<char>, target: &Vec<char>) -> (r: bool)
    ensures
        r == is_header_of(tr@, target@),
{
    if !starts_with_exec(tr, &chars_of("template ")) {
        return false;
    }
    match find_char_in(tr, '(') {
        Some(pp) => {
            if pp < 9 {
                return false;
            }
            let nm = trim_chars(&copy_range(tr, 9, pp));
            crate::text::chars_eq(&nm, target)
        },
        None => false,
    }
}

/// The `signal input` declarations of template `template_name`, with each
/// one's dimension texts; of every template where `template_name` is
/// `None`.
pub fn scan_input_decls(source: &str, template_name: Option<&str>) -> (r: Option<
    Vec<InputSignalDecl>,
>)
    ensures
        match r {
            Some(v) => input_decls_of(
                source@,
                match template_name {
                    Some(t) => Some(t@),
                    None => None,
                },
            ) == Some(input_decls_view(v@)),
            None => input_decls_of(
                source@,
                match template_name {
                    Some(t) => Some(t@),
                    None => None,
                },
            ) is None,
        },
{
    let ghost tg: Option<Seq<char>> = match template_name {
        Some(t) => Some(t@),
        None => None,
    };
    let target: Option<Vec<char>> = match template_name {
        Some(t) => Some(chars_of(t)),
        None => None,
    };
    let named = target.is_some();
    let cs = chars_of(source);
    proof {
        lemma_braces_le_len(source@);
    }
    let ls = lines_exec(&cs);
    let ghost lv = views(ls@);
    let mut out: Vec<InputSignalDecl> = Vec::new();
    let mut inside = !named;
    let mut depth: i128 = 0;
    let mut i: usize = 0;
    assert(input_decls_view(out@) =~= Seq::<InputSignalDeclV>::empty());
    assert(lv.take(0) =~= Seq::<Seq<char>>::empty());
    while i < ls.len()
        invariant
            lv == views(ls@),
            lv == lines(source@),
            braces(source@) <= usize::MAX,
            named == (tg is Some),
            tg == match template_name {
                Some(t) => Some(t@),
                None => None,
            },
            match target {
                Some(t) => tg == Some(t@),
                None => tg is None,
            },
            i <= ls@.len(),
            -braces_sum(lv.take(i as int)) <= depth <= braces_sum(lv.take(i as int)),
            in_scan(lv, i as int, tg) == (InScanV {
                inside,
                depth: depth as int,
                decls: Some(input_decls_view(out@)),
            }),
        decreases ls.len() - i,
    {
        proof {
            lemma_braces_before(source@, lv, i as int);
            lemma_braces_lines_step(lv, i as int);
            lemma_trim_braces(ls@[i as int]@);
        }
        let ghost seen: int = braces_sum(lv.take(i as int)) as int;
        assert(lv[i as int] == ls@[i as int]@);
        let tr = trim_chars(&ls[i]);
        match &target {
            Some(t) => {
                if is_header_of_exec(&tr, t) {
                    inside = true;
                    depth = 0;
                }
            },
            None => {},
        }
        if inside {
            let (d2, in2) = brace_track_exec(&tr, depth, inside, named, Ghost(seen));
            depth = d2;
            inside = in2;
            match input_name_exec(&tr) {
                Some(raw) => {
                    let (n, ds) = match split_array_dims_chars(&raw) {
                        Some(x) => x,
                        None => {
                            proof {
                                assert(in_scan(lv, i + 1, tg) == in_line_step(
                                    in_scan(lv, i as int, tg),
                                    lv[i as int],
                                    tg,
                                ));
                                assert(in_scan(lv, i + 1, tg).decls is None);
                                lemma_in_scan_fault_stays(lv, i + 1, tg);
                            }
                            return None;
                        },
                    };
                    let d = InputSignalDecl { name: n, dims: ds };
                    let ghost dv = d@;
                    let ghost prev = out@;
                    out.push(d);
                    assert(input_decls_view(out@) =~= input_decls_view(prev).push(dv));
                },
                None => {},
            }
        }
        i += 1;
    }
    assert(lv.take(lv.len() as int) =~= lv);
    Some(out)
}

/// The `signal input` declarations of template `template_name` (of the
/// whole source when it is `None`), with their dimension texts.
pub fn find_template_input_decls(source: &str, template_name: Option<&str>) -> (r: Vec<
    InputSignalDecl,
>)
    requires
        input_decls_of(
            source@,
            match template_name {
                Some(t) => Some(t@),
                None => None,
            },
        ) is Some,
    ensures
        Some(input_decls_view(r@)) == input_decls_of(
            source@,
            match template_name {
                Some(t) => Some(t@),
                None => None,
            },
        ),
{
    match scan_input_decls(source, template_name) {
        Some(v) => v,
        None => Vec::new(),
    }
}

/// A scan that has failed stays failed.
proof fn lemma_in_scan_fault_stays(ls: Seq<Seq<char>>, n: int, target: Option<Seq<char>>)
    requires
        0 <= n <= ls.len(),
        in_scan(ls, n, target).decls is None,
    ensures
        in_scan(ls, ls.len() as int, target).decls is None,
    decreases ls.len() - n,
{
    if n < ls.len() {
        lemma_in_scan_fault_stays(ls, n + 1, target);
    }
}

// ----- witness inputs ---------------------------------------------------------------

/// A dimension's size for the witness buffer: at least 1.
pub open spec fn at_least_one(v: usize) -> int {
    if v >= 1 {
        v as int
    } else {
        1
    }
}

/// The number of values of an input: the product of its dimensions (1 for
/// a scalar).
pub open spec fn dims_size(dims: Seq<Seq<char>>, env: Map<Seq<char>, i64>) -> int
    decreases dims.len(),
{
    if dims.len() == 0 {
        1
    } else {
        dims_size(dims.drop_last(), env) * at_least_one(dim_value(dims.last(), env))
    }
}

pub open spec fn zero_texts(n: int) -> Seq<Seq<char>> {
    Seq::new(n as nat, |k: int| "0"@)
}

/// Each input's name mapped to as many `"0"` values as it has elements;
/// a later declaration of a name replaces an earlier one.
pub open spec fn witness_inputs(decls: Seq<InputSignalDeclV>, env: Map<Seq<char>, i64>) -> Map<
    Seq<char>,
    Seq<Seq<char>>,
>
    decreases decls.len(),
{
    if decls.len() == 0 {
        Map::empty()
    } else {
        witness_inputs(decls.drop_last(), env).insert(
            decls.last().name,
            zero_texts(dims_size(decls.last().dims, env)),
        )
    }
}

pub open spec fn inputs_pairs(v: Seq<(String, Vec<String>)>) -> Seq<(Seq<char>, Seq<Seq<char>>)> {
    v.map_values(|p: (String, Vec<String>)| (p.0@, crate::parser::strs_view(p.1@)))
}

proof fn lemma_dims_size_pos(dims: Seq<Seq<char>>, env: Map<Seq<char>, i64>)
    ensures
        dims_size(dims, env) >= 1,
    decreases dims.len(),
{
    if dims.len() > 0 {
        lemma_dims_size_pos(dims.drop_last(), env);
        let a = dims_size(dims.drop_last(), env);
        let b = at_least_one(dim_value(dims.last(), env));
        assert(a * b >= 1) by (nonlinear_arith)
            requires
                a >= 1,
                b >= 1,
        ;
    }
}

/// A product of factors that are each at least 1 does not shrink as
/// factors are added.
proof fn lemma_dims_size_prefix(dims: Seq<Seq<char>>, env: Map<Seq<char>, i64>, k: int)
    requires
        0 <= k <= dims.len(),
    ensures
        dims_size(dims.take(k), env) <= dims_size(dims, env),
    decreases dims.len() - k,
{
    if k < dims.len() {
        lemma_dims_size_prefix(dims, env, k + 1);
        assert(dims.take(k + 1).drop_last() =~= dims.take(k));
        lemma_dims_size_pos(dims.take(k), env);
        let a = dims_size(dims.take(k), env);
        let b = at_least_one(dim_value(dims[k], env));
        assert(a <= a * b) by (nonlinear_arith)
            requires
                a >= 1,
                b >= 1,
        ;
    } else {
        assert(dims.take(k) =~= dims);
    }
}

fn zero_string() -> (r: String)
    ensures
        r@ == "0"@,
{
    let cs = chars_of("0");
    string_from_chars(&cs)
}

/// The size of one input and its `"0"` values.
fn input_zeros(d: &InputSignalDecl, env: &Vec<(String, i64)>) -> (r: Vec<String>)
    requires
        dims_size(d@.dims, signals_map(env@)) <= usize::MAX,
    ensures
        crate::parser::strs_view(r@) == zero_texts(dims_size(d@.dims, signals_map(env@))),
{
    let ghost m = signals_map(env@);
    let ghost dv = d@.dims;
    let mut size: usize = 1;
    let mut k: usize = 0;
    assert(dv.take(0) =~= Seq::<Seq<char>>::empty());
    while k < d.dims.len()
        invariant
            dv == d@.dims,
            m == signals_map(env@),
            dv.len() == d.dims@.len(),
            k <= d.dims@.len(),
            size as int == dims_size(dv.take(k as int), m),
            dims_size(dv, m) <= usize::MAX,
        decreases d.dims.len() - k,
    {
        let dk = d.dims[k].as_str();
        let v = resolve_dim(dk, env);
        assert(dk@ == dv[k as int]);
        let f = if v >= 1 {
            v
        } else {
            1
        };
        proof {
            assert(dv[k as int] == d.dims@[k as int]@);
            assert(dv.take(k + 1).drop_last() =~= dv.take(k as int));
            assert(dv.take(k + 1).last() == dv[k as int]);
            lemma_dims_size_prefix(dv, m, k + 1);
            let a = dims_size(dv.take(k as int), m);
            let b = at_least_one(dim_value(dv[k as int], m));
            assert(dims_size(dv.take(k + 1), m) == a * b);
            assert(f as int == b);
            assert(size * f == a * b) by (nonlinear_arith)
                requires
                    size as int == a,
                    f as int == b,
            ;
        }
        size = size * f;
        k += 1;
    }
    assert(dv.take(dv.len() as int) =~= dv);
    let mut out: Vec<String> = Vec::new();
    let mut j: usize = 0;
    while j < size
        invariant
            j <= size,
            crate::parser::strs_view(out@) == zero_texts(j as int),
        decreases size - j,
    {
        let z = zero_string();
        let ghost prev = out@;
        out.push(z);
        assert(crate::parser::strs_view(out@) =~= crate::parser::strs_view(prev).push("0"@));
        assert(zero_texts(j + 1) =~= zero_texts(j as int).push("0"@));
        j += 1;
    }
    out
}

proof fn lemma_inputs_last(s: Seq<(String, Vec<String>)>, k: Seq<char>, i: int)
    requires
        0 <= i < s.len(),
        s[i].0@ == k,
        forall|j: int| i < j < s.len() ==> (#[trigger] s[j]).0@ != k,
    ensures
        last_key_at(inputs_pairs(s), k, i),
{
    assert forall|j: int| i < j < inputs_pairs(s).len() implies (#[trigger] inputs_pairs(s)[j]).0
        != k by {
        assert(inputs_pairs(s)[j].0 == s[j].0@);
    }
}

/// How many values an input declaration takes, where that fits in `usize`.
fn input_size_checked(d: &InputSignalDecl, env: &Vec<(String, i64)>) -> (r: Option<usize>)
    ensures
        match r {
            Some(x) => x as int == dims_size(d@.dims, signals_map(env@)),
            None => dims_size(d@.dims, signals_map(env@)) > usize::MAX,
        },
{
    let ghost m = signals_map(env@);
    let ghost dv = d@.dims;
    let mut size: usize = 1;
    let mut k: usize = 0;
    assert(dv.take(0) =~= Seq::<Seq<char>>::empty());
    while k < d.dims.len()
        invariant
            dv == d@.dims,
            m == signals_map(env@),
            dv.len() == d.dims@.len(),
            k <= d.dims@.len(),
            size as int == dims_size(dv.take(k as int), m),
        decreases d.dims.len() - k,
    {
        let dk = d.dims[k].as_str();
        let v = resolve_dim(dk, env);
        assert(dk@ == dv[k as int]);
        let f = if v >= 1 {
            v
        } else {
            1
        };
        proof {
            assert(dv.take(k + 1).drop_last() =~= dv.take(k as int));
            assert(dv.take(k + 1).last() == dv[k as int]);
        }
        let ghost a = dims_size(dv.take(k as int), m);
        let ghost b = at_least_one(dim_value(dv[k as int], m));
        assert(dims_size(dv.take(k + 1), m) == a * b);
        match size.checked_mul(f) {
            Some(x) => {
                size = x;
            },
            None => {
                proof {
                    lemma_dims_size_prefix(dv, m, k + 1);
                }
                return None;
            },
        }
        k += 1;
    }
    assert(dv.take(dv.len() as int) =~= dv);
    Some(size)
}

/// Whether every declaration's value count fits in `usize`.
pub fn input_sizes_fit(decls: &[InputSignalDecl], generic_env: &Vec<(String, i64)>) -> (r: bool)
    ensures
        r == forall|i: int|
            0 <= i < decls@.len() ==> dims_size(#[trigger] decls@[i]@.dims, signals_map(generic_env@))
                <= usize::MAX,
{
    let mut i: usize = 0;
    while i < decls.len()
        invariant
            i <= decls@.len(),
            forall|j: int|
                0 <= j < i ==> dims_size(#[trigger] decls@[j]@.dims, signals_map(generic_env@))
                    <= usize::MAX,
        decreases decls.len() - i,
    {
        if input_size_checked(&decls[i], generic_env).is_none() {
            return false;
        }
        i += 1;
    }
    true
}


/// No name occurs twice among the inputs.
pub open spec fn distinct_names(v: Seq<(String, Vec<String>)>) -> bool {
    forall|i: int, j: int| 0 <= i < v.len() && 0 <= j < v.len() && i != j ==> (#[trigger] v[i]).0@ != (#[trigger] v[j]).0@
}

/// The witness calculator's input map: every input of `decls` with as
/// many `"0"` values as it has elements (dimensions resolved with the
/// generic parameters' values).
pub fn build_witness_inputs(decls: &[InputSignalDecl], generic_env: &Vec<(String, i64)>) -> (r: Vec<
    (String, Vec<String>),
>)
    requires
        forall|i: int|
            0 <= i < decls@.len() ==> dims_size(#[trigger] decls@[i]@.dims, signals_map(generic_env@))
                <= usize::MAX,
    ensures
        pairs_map(inputs_pairs(r@)) == witness_inputs(
            decls@.map_values(|d: InputSignalDecl| d@),
            signals_map(generic_env@),
        ),
        distinct_names(r@),
{
    let ghost dv = decls@.map_values(|d: InputSignalDecl| d@);
    let ghost m = signals_map(generic_env@);
    let mut out: Vec<(String, Vec<String>)> = Vec::new();
    let mut i: usize = 0;
    assert(dv.take(0) =~= Seq::<InputSignalDeclV>::empty());
    assert(inputs_pairs(out@) =~= Seq::<(Seq<char>, Seq<Seq<char>>)>::empty());
    while i < decls.len()
        invariant
            dv == decls@.map_values(|d: InputSignalDecl| d@),
            m == signals_map(generic_env@),
            i <= decls@.len(),
            forall|j: int|
                0 <= j < decls@.len() ==> dims_size(#[trigger] decls@[j]@.dims, m) <= usize::MAX,
            pairs_map(inputs_pairs(out@)) == witness_inputs(dv.take(i as int), m),
            distinct_names(out@),
        decreases decls.len() - i,
    {
        let zs = input_zeros(&decls[i], generic_env);
        let key = decls[i].name.clone();
        proof {
            assert(dv.take(i + 1).drop_last() =~= dv.take(i as int));
            assert(dv.take(i + 1).last() == decls@[i as int]@);
        }
        let ghost kv = key@;
        let ghost zv = crate::parser::strs_view(zs@);
        match find_last_key(&out, key.as_str()) {
            Some(j) => {
                proof {
                    lemma_inputs_last(out@, kv, j as int);
                    lemma_pairs_map_update(inputs_pairs(out@), kv, j as int, zv);
                }
                let ghost prev = out@;
                out.set(j, (key, zs));
                assert(inputs_pairs(out@) =~= inputs_pairs(prev).update(j as int, (kv, zv)));
            },
            None => {
                let ghost prev = out@;
                out.push((key, zs));
                proof {
                    assert(inputs_pairs(out@) =~= inputs_pairs(prev).push((kv, zv)));
                    lemma_pairs_map_push(inputs_pairs(prev), kv, zv);
                }
            },
        }
        i += 1;
    }
    assert(dv.take(decls@.len() as int) =~= dv);
    out
}

// ----- symbol files ---------------------------------------------------------------------

/// A signal of a `.sym` file: its witness index and its name without the
/// `main.` prefix.
#[derive(Debug, Clone)]
pub struct SymbolEntry {
    pub witness_index: usize,
    /// The name without `main.` (e.g. `a`, `adder.out`).
    pub name: String,
    /// The full name (e.g. `main.a`).
    pub full_name: String,
}

pub struct SymbolEntryV {
    pub witness_index: usize,
    pub name: Seq<char>,
    pub full_name: Seq<char>,
}

impl View for SymbolEntry {
    type V = SymbolEntryV;

    open spec fn view(&self) -> SymbolEntryV {
        SymbolEntryV { witness_index: self.witness_index, name: self.name@, full_name: self.full_name@ }
    }
}

/// A `.sym` line whose witness index is not a number.
#[derive(Debug, Clone)]
pub struct SymError {
    /// The offending line, trimmed.
    pub line: String,
}

/// The first and the fourth fields of `splitn(4, ',')`: the text before
/// the first comma and everything after the third; `None` with fewer than
/// three commas.
pub open spec fn sym_fields(t: Seq<char>) -> Option<(Seq<char>, Seq<char>)> {
    match find_char(t, ',') {
        None => None,
        Some(c1) => {
            let s1 = t.skip(c1 + 1);
            match find_char(s1, ',') {
                None => None,
                Some(c2) => {
                    let s2 = s1.skip(c2 + 1);
                    match find_char(s2, ',') {
                        None => None,
                        Some(c3) => Some((t.take(c1), s2.skip(c3 + 1))),
                    }
                },
            }
        },
    }
}

/// What one line of a `.sym` file holds: nothing (blank, or too few
/// fields), an entry, or an error (the trimmed line) for a bad index.
pub open spec fn sym_line(t: Seq<char>) -> Option<Result<SymbolEntryV, Seq<char>>> {
    let tr = trim(t);
    if tr.len() == 0 {
        None
    } else {
        match sym_fields(tr) {
            None => None,
            Some((f0, f3)) => match parse_usize(f0) {
                None => Some(Err(tr)),
                Some(w) => Some(
                    Ok(
                        SymbolEntryV {
                            witness_index: w,
                            name: match strip_prefix(f3, "main."@) {
                                Some(n) => n,
                                None => f3,
                            },
                            full_name: f3,
                        },
                    ),
                ),
            },
        }
    }
}

pub open spec fn sym_upto(ls: Seq<Seq<char>>, n: int) -> Result<Seq<SymbolEntryV>, Seq<char>>
    decreases n,
{
    if n <= 0 || n > ls.len() {
        Ok(Seq::empty())
    } else {
        match sym_upto(ls, n - 1) {
            Err(e) => Err(e),
            Ok(acc) => match sym_line(ls[n - 1]) {
                None => Ok(acc),
                Some(Ok(e)) => Ok(acc.push(e)),
                Some(Err(l)) => Err(l),
            },
        }
    }
}

/// The entries of a `.sym` file (`witness,constraint,component,name` per
/// line), or the first line whose witness index does not parse.
pub open spec fn sym_entries(content: Seq<char>) -> Result<Seq<SymbolEntryV>, Seq<char>> {
    sym_upto(lines(content), lines(content).len() as int)
}

pub open spec fn sym_view(v: Seq<SymbolEntry>) -> Seq<SymbolEntryV> {
    v.map_values(|e: SymbolEntry| e@)
}

fn sym_line_exec(t: &Vec<char>) -> (r: Option<Result<SymbolEntry, SymError>>)
    ensures
        match r {
            None => sym_line(t@) is None,
            Some(Ok(e)) => sym_line(t@) == Some(Ok::<SymbolEntryV, Seq<char>>(e@)),
            Some(Err(er)) => sym_line(t@) == Some(Err::<SymbolEntryV, Seq<char>>(er.line@)),
        },
{
    let tr = trim_chars(t);
    if tr.len() == 0 {
        return None;
    }
    let c1 = match find_char_in(&tr, ',') {
        Some(c) => c,
        None => {
            return None;
        },
    };
    let s1 = copy_range(&tr, c1 + 1, tr.len());
    assert(s1@ =~= tr@.skip(c1 + 1));
    let c2 = match find_char_in(&s1, ',') {
        Some(c) => c,
        None => {
            return None;
        },
    };
    let s2 = copy_range(&s1, c2 + 1, s1.len());
    assert(s2@ =~= s1@.skip(c2 + 1));
    let c3 = match find_char_in(&s2, ',') {
        Some(c) => c,
        None => {
            return None;
        },
    };
    let f0 = copy_range(&tr, 0, c1);
    assert(f0@ =~= tr@.take(c1 as int));
    let f3 = copy_range(&s2, c3 + 1, s2.len());
    assert(f3@ =~= s2@.skip(c3 + 1));
    match parse_usize_exec(&f0) {
        None => Some(Err(SymError { line: string_from_chars(&tr) })),
        Some(w) => {
            let name = match strip_prefix_exec(&f3, &chars_of("main.")) {
                Some(n) => string_from_chars(&n),
                None => string_from_chars(&f3),
            };
            Some(Ok(SymbolEntry { witness_index: w, name, full_name: string_from_chars(&f3) }))
        },
    }
}

/// Parses the text of a `.sym` file produced by `circom --sym`: one entry
/// per line `witness_index,constraint_index,component_index,name`; blank
/// lines and lines with fewer fields are skipped.
pub fn parse_sym_content(content: &str) -> (r: Result<Vec<SymbolEntry>, SymError>)
    ensures
        match r {
            Ok(v) => sym_entries(content@) == Ok::<Seq<SymbolEntryV>, Seq<char>>(sym_view(v@)),
            Err(e) => sym_entries(content@) == Err::<Seq<SymbolEntryV>, Seq<char>>(e.line@),
        },
{
    let cs = chars_of(content);
    let ls = lines_exec(&cs);
    let mut out: Vec<SymbolEntry> = Vec::new();
    let mut i: usize = 0;
    assert(sym_view(out@) =~= Seq::<SymbolEntryV>::empty());
    while i < ls.len()
        invariant
            views(ls@) == lines(content@),
            i <= ls@.len(),
            sym_upto(views(ls@), i as int) == Ok::<Seq<SymbolEntryV>, Seq<char>>(sym_view(out@)),
        decreases ls.len() - i,
    {
        assert(views(ls@)[i as int] == ls@[i as int]@);
        match sym_line_exec(&ls[i]) {
            None => {},
            Some(Ok(e)) => {
                let ghost ev = e@;
                let ghost prev = out@;
                out.push(e);
                assert(sym_view(out@) =~= sym_view(prev).push(ev));
            },
            Some(Err(er)) => {
                proof {
                    lemma_sym_err_stays(views(ls@), i + 1);
                }
                return Err(er);
            },
        }
        i += 1;
    }
    Ok(out)
}

proof fn lemma_sym_err_stays(ls: Seq<Seq<char>>, n: int)
    requires
        0 <= n <= ls.len(),
        sym_upto(ls, n) is Err,
    ensures
        sym_upto(ls, ls.len() as int) == sym_upto(ls, n),
    decreases ls.len() - n,
{
    if n < ls.len() {
        lemma_sym_err_stays(ls, n + 1);
    }
}

// ----- nesting order ------------------------------------------------------------------

/// How many components are not yet placed.
pub open spec fn unplaced(em: Seq<bool>) -> nat
    decreases em.len(),
{
    if em.len() == 0 {
        0
    } else {
        unplaced(em.drop_last()) + if !em.last() {
            1nat
        } else {
            0nat
        }
    }
}

/// Component `j` is declared inside the template that component `p`
/// instantiates.
pub open spec fn is_child(cs: Seq<ComponentInstanceV>, p: int, j: int) -> bool {
    cs[j].parent_template == Some(cs[p].template_name)
}

/// Depth-first placement from component `idx`: it, then each of its
/// children in source order with theirs.
pub open spec fn dfs(cs: Seq<ComponentInstanceV>, idx: int, em: Seq<bool>) -> (Seq<bool>, Seq<int>)
    decreases unplaced(em), 0int,
{
    if !(0 <= idx < em.len()) || em[idx] {
        (em, Seq::empty())
    } else {
        let em1 = em.update(idx, true);
        if unplaced(em1) < unplaced(em) {
            let r = dfs_children(cs, idx, 0, em1);
            (r.0, seq![idx] + r.1)
        } else {
            (em1, seq![idx])
        }
    }
}

/// The children of `p` from index `j` on, each placed depth-first.
pub open spec fn dfs_children(cs: Seq<ComponentInstanceV>, p: int, j: int, em: Seq<bool>) -> (
    Seq<bool>,
    Seq<int>,
)
    decreases unplaced(em), em.len() - j + 1,
{
    if !(0 <= j < em.len()) {
        (em, Seq::empty())
    } else if !em[j] && j < cs.len() && 0 <= p < cs.len() && is_child(cs, p, j) {
        let r = dfs(cs, j, em);
        if unplaced(r.0) <= unplaced(em) && r.0.len() == em.len() {
            let r2 = dfs_children(cs, p, j + 1, r.0);
            (r2.0, r.1 + r2.1)
        } else {
            r
        }
    } else {
        dfs_children(cs, p, j + 1, em)
    }
}

/// The first component declared at file scope.
pub open spec fn first_root(cs: Seq<ComponentInstanceV>, i: int) -> Option<int>
    decreases cs.len() - i,
{
    if i < 0 || i >= cs.len() {
        None
    } else if cs[i].parent_template is None {
        Some(i)
    } else {
        first_root(cs, i + 1)
    }
}

/// The indices not yet placed, in order.
pub open spec fn unplaced_indices(em: Seq<bool>, n: int) -> Seq<int>
    decreases n,
{
    if n <= 0 || n > em.len() {
        Seq::empty()
    } else if !em[n - 1] {
        unplaced_indices(em, n - 1).push(n - 1)
    } else {
        unplaced_indices(em, n - 1)
    }
}

/// The order components are visited in: depth-first from the file-scope
/// component, children in source order, then those not reached in source
/// order; source order when there is no file-scope component.
pub open spec fn nesting_order(cs: Seq<ComponentInstanceV>) -> Seq<int> {
    match first_root(cs, 0) {
        None => Seq::new(cs.len(), |i: int| i),
        Some(m) => {
            let r = dfs(cs, m, Seq::new(cs.len(), |i: int| false));
            r.1 + unplaced_indices(r.0, cs.len() as int)
        },
    }
}

proof fn lemma_unplaced_update(em: Seq<bool>, i: int)
    requires
        0 <= i < em.len(),
        !em[i],
    ensures
        unplaced(em.update(i, true)) + 1 == unplaced(em),
    decreases em.len(),
{
    let u = em.update(i, true);
    if i == em.len() - 1 {
        assert(u.drop_last() =~= em.drop_last());
    } else {
        lemma_unplaced_update(em.drop_last(), i);
        assert(u.drop_last() =~= em.drop_last().update(i, true));
    }
}

pub open spec fn idx_view(v: Seq<usize>) -> Seq<int> {
    v.map_values(|x: usize| x as int)
}

fn is_child_exec(cs: &[ComponentInstance], p: usize, j: usize) -> (r: bool)
    requires
        p < cs@.len(),
        j < cs@.len(),
    ensures
        r == is_child(cs@.map_values(|c: ComponentInstance| c@), p as int, j as int),
{
    match &cs[j].parent_template {
        Some(par) => {
            let r = *par == cs[p].template_name;
            r
        },
        None => false,
    }
}

fn dfs_exec(cs: &[ComponentInstance], idx: usize, em: &mut Vec<bool>, out: &mut Vec<usize>)
    requires
        idx < cs@.len(),
        old(em)@.len() == cs@.len(),
    ensures
        final(em)@.len() == cs@.len(),
        final(em)@ == dfs(cs@.map_values(|c: ComponentInstance| c@), idx as int, old(em)@).0,
        idx_view(final(out)@) == idx_view(old(out)@) + dfs(
            cs@.map_values(|c: ComponentInstance| c@),
            idx as int,
            old(em)@,
        ).1,
        unplaced(final(em)@) <= unplaced(old(em)@),
    decreases unplaced(old(em)@), 0int,
{
    let ghost csv = cs@.map_values(|c: ComponentInstance| c@);
    if em[idx] {
        assert(idx_view(out@) + Seq::<int>::empty() =~= idx_view(out@));
        return;
    }
    proof {
        lemma_unplaced_update(em@, idx as int);
    }
    em.set(idx, true);
    let ghost em1 = em@;
    let ghost out0 = idx_view(out@);
    out.push(idx);
    let ghost mut acc: Seq<int> = seq![idx as int];
    assert(idx_view(out@) =~= out0 + acc);
    let mut j: usize = 0;
    while j < cs.len()
        invariant
            csv == cs@.map_values(|c: ComponentInstance| c@),
            idx < cs@.len(),
            em@.len() == cs@.len(),
            j <= cs@.len(),
            unplaced(em@) <= unplaced(em1),
            unplaced(em1) < unplaced(old(em)@),
            idx_view(out@) == out0 + acc,
            (dfs_children(csv, idx as int, 0, em1).0, seq![idx as int] + dfs_children(
                csv,
                idx as int,
                0,
                em1,
            ).1) == (dfs_children(csv, idx as int, j as int, em@).0, acc + dfs_children(
                csv,
                idx as int,
                j as int,
                em@,
            ).1),
        decreases cs.len() - j,
    {
        if !em[j] && is_child_exec(cs, idx, j) {
            let ghost em_b = em@;
            let ghost o_b = idx_view(out@);
            dfs_exec(cs, j, em, out);
            proof {
                let r = dfs(csv, j as int, em_b);
                let r2 = dfs_children(csv, idx as int, j + 1, r.0);
                assert(acc + (r.1 + r2.1) =~= (acc + r.1) + r2.1);
                acc = acc + r.1;
            }
        }
        j += 1;
    }
    proof {
        assert(acc + Seq::<int>::empty() =~= acc);
        assert(out0 + (seq![idx as int] + dfs_children(csv, idx as int, 0, em1).1) =~= out0 + acc);
    }
}

/// Orders component instances depth-first by template nesting: from the
/// file-scope `component main`, each component is followed by those
/// declared in its template's body, in source order; components not
/// reached that way follow in source order.
pub fn order_components_by_nesting(components: &[ComponentInstance]) -> (r: Vec<&ComponentInstance>)
    ensures
        r@.len() == nesting_order(components@.map_values(|c: ComponentInstance| c@)).len(),
        forall|k: int|
            0 <= k < r@.len() ==> *r@[k] == components@[nesting_order(
                components@.map_values(|c: ComponentInstance| c@),
            )[k]],
{
    let ghost csv = components@.map_values(|c: ComponentInstance| c@);
    let n = components.len();
    let mut i: usize = 0;
    while i < n && components[i].parent_template.is_some()
        invariant
            n == components@.len(),
            csv == components@.map_values(|c: ComponentInstance| c@),
            i <= n,
            first_root(csv, 0) == first_root(csv, i as int),
        decreases n - i,
    {
        i += 1;
    }
    let root: Option<usize> = if i < n {
        Some(i)
    } else {
        None
    };
    assert(first_root(csv, 0) == match root {
        Some(m) => Some(m as int),
        None => None::<int>,
    });
    let mut order: Vec<usize> = Vec::new();
    match root {
        None => {
            let mut k: usize = 0;
            while k < n
                invariant
                    n == components@.len(),
                    k <= n,
                    idx_view(order@) == Seq::new(k as nat, |i: int| i),
                    forall|q: int| 0 <= q < order@.len() ==> order@[q] < n,
                decreases n - k,
            {
                let ghost prev = order@;
                order.push(k);
                assert(idx_view(order@) =~= idx_view(prev).push(k as int));
                assert(idx_view(order@) =~= Seq::new((k + 1) as nat, |i: int| i));
                k += 1;
            }
        },
        Some(m) => {
            let mut em: Vec<bool> = Vec::new();
            let mut k: usize = 0;
            while k < n
                invariant
                    k <= n,
                    em@ == Seq::new(k as nat, |i: int| false),
                decreases n - k,
            {
                em.push(false);
                assert(em@ =~= Seq::new((k + 1) as nat, |i: int| false));
                k += 1;
            }
            assert(idx_view(order@) =~= Seq::<int>::empty());
            assert(em@ =~= Seq::new(csv.len(), |i: int| false));
            dfs_exec(components, m, &mut em, &mut order);
            assert(idx_view(order@) =~= dfs(csv, m as int, Seq::new(csv.len(), |i: int| false)).1);
            let ghost em_d = em@;
            let ghost base = idx_view(order@);
            let mut q: usize = 0;
            assert(base + unplaced_indices(em_d, 0) =~= base);
            while q < n
                invariant
                    n == components@.len(),
                    em@ == em_d,
                    em_d.len() == n,
                    q <= n,
                    idx_view(order@) == base + unplaced_indices(em_d, q as int),
                decreases n - q,
            {
                if !em[q] {
                    let ghost prev = order@;
                    order.push(q);
                    assert(idx_view(order@) =~= idx_view(prev).push(q as int));
                    assert(idx_view(order@) =~= base + unplaced_indices(em_d, q + 1));
                }
                q += 1;
            }
        },
    }
    proof {
        assert(idx_view(order@) =~= nesting_order(csv));
        lemma_order_in_range(csv);
    }
    let mut out: Vec<&ComponentInstance> = Vec::new();
    let mut k: usize = 0;
    while k < order.len()
        invariant
            idx_view(order@) == nesting_order(csv),
            forall|q: int| 0 <= q < order@.len() ==> 0 <= #[trigger] nesting_order(csv)[q] < n,
            n == components@.len(),
            k <= order@.len(),
            out@.len() == k,
            forall|q: int| 0 <= q < k ==> *out@[q] == components@[nesting_order(csv)[q]],
        decreases order.len() - k,
    {
        assert(idx_view(order@)[k as int] == order@[k as int] as int);
        out.push(&components[order[k]]);
        k += 1;
    }
    out
}

/// Every index in the nesting order names a component.
pub proof fn lemma_order_in_range(cs: Seq<ComponentInstanceV>)
    ensures
        forall|q: int|
            0 <= q < nesting_order(cs).len() ==> 0 <= #[trigger] nesting_order(cs)[q] < cs.len(),
{
    match first_root(cs, 0) {
        None => {},
        Some(m) => {
            let em0 = Seq::new(cs.len(), |i: int| false);
            lemma_dfs_in_range(cs, m, em0);
            let r = dfs(cs, m, em0);
            lemma_unplaced_indices_in_range(r.0, cs.len() as int);
        },
    }
}

proof fn lemma_unplaced_indices_in_range(em: Seq<bool>, n: int)
    requires
        0 <= n <= em.len(),
    ensures
        forall|q: int|
            0 <= q < unplaced_indices(em, n).len() ==> 0 <= #[trigger] unplaced_indices(em, n)[q]
                < n,
    decreases n,
{
    if n > 0 {
        lemma_unplaced_indices_in_range(em, n - 1);
        let prev = unplaced_indices(em, n - 1);
        assert forall|q: int| 0 <= q < unplaced_indices(em, n).len() implies 0
            <= #[trigger] unplaced_indices(em, n)[q] < n by {
            if q < prev.len() {
                assert(unplaced_indices(em, n)[q] == prev[q]);
            }
        }
    }
}

proof fn lemma_dfs_in_range(cs: Seq<ComponentInstanceV>, idx: int, em: Seq<bool>)
    ensures
        dfs(cs, idx, em).0.len() == em.len(),
        forall|q: int|
            0 <= q < dfs(cs, idx, em).1.len() ==> 0 <= #[trigger] dfs(cs, idx, em).1[q] < em.len(),
    decreases unplaced(em), 0int,
{
    if !(0 <= idx < em.len()) || em[idx] {
    } else {
        let em1 = em.update(idx, true);
        if unplaced(em1) < unplaced(em) {
            lemma_dfs_children_in_range(cs, idx, 0, em1);
        }
    }
}

proof fn lemma_dfs_children_in_range(cs: Seq<ComponentInstanceV>, p: int, j: int, em: Seq<bool>)
    ensures
        dfs_children(cs, p, j, em).0.len() == em.len(),
        forall|q: int|
            0 <= q < dfs_children(cs, p, j, em).1.len() ==> 0 <= #[trigger] dfs_children(
                cs,
                p,
                j,
                em,
            ).1[q] < em.len(),
    decreases unplaced(em), em.len() - j + 1,
{
    if !(0 <= j < em.len()) {
    } else if !em[j] && j < cs.len() && 0 <= p < cs.len() && is_child(cs, p, j) {
        lemma_dfs_in_range(cs, j, em);
        let r = dfs(cs, j, em);
        if unplaced(r.0) <= unplaced(em) && r.0.len() == em.len() {
            lemma_dfs_children_in_range(cs, p, j + 1, r.0);
        }
    } else {
        lemma_dfs_children_in_range(cs, p, j + 1, em);
    }
}

/// What a placement from marks `em` did: marks only grow, the indices it
/// gives are exactly those it newly marked, and none twice.
pub open spec fn places(em: Seq<bool>, r: (Seq<bool>, Seq<int>)) -> bool {
    &&& r.0.len() == em.len()
    &&& forall|k: int| #![trigger em[k]] #![trigger r.0[k]] 0 <= k < em.len() && em[k] ==> r.0[k]
    &&& forall|k: int|
        #![trigger r.1.contains(k)]
        #![trigger r.0[k]]
        0 <= k < em.len() ==> (r.1.contains(k) <==> (r.0[k] && !em[k]))
    &&& r.1.no_duplicates()
}

proof fn lemma_places_chain(em: Seq<bool>, a: (Seq<bool>, Seq<int>), b: (Seq<bool>, Seq<int>))
    requires
        places(em, a),
        places(a.0, b),
        forall|q: int| 0 <= q < a.1.len() ==> 0 <= #[trigger] a.1[q] < em.len(),
        forall|q: int| 0 <= q < b.1.len() ==> 0 <= #[trigger] b.1[q] < em.len(),
    ensures
        places(em, (b.0, a.1 + b.1)),
{
    let out = a.1 + b.1;
    assert forall|k: int| 0 <= k < em.len() implies (out.contains(k) <==> (b.0[k] && !em[k])) by {
        assert(a.1.contains(k) <==> (a.0[k] && !em[k]));
        assert(b.1.contains(k) <==> (b.0[k] && !a.0[k]));
        assert(em[k] ==> a.0[k]);
        assert(a.0[k] ==> b.0[k]);
        if out.contains(k) {
            let q = choose|q: int| 0 <= q < out.len() && out[q] == k;
            if q < a.1.len() {
                assert(a.1[q] == k);
                assert(a.1.contains(k));
            } else {
                assert(b.1[q - a.1.len()] == k);
                assert(b.1.contains(k));
            }
        }
        if b.0[k] && !em[k] {
            if a.0[k] {
                assert(a.1.contains(k));
                let q = choose|q: int| 0 <= q < a.1.len() && a.1[q] == k;
                assert(out[q] == k);
            } else {
                assert(b.1.contains(k));
                let q = choose|q: int| 0 <= q < b.1.len() && b.1[q] == k;
                assert(out[q + a.1.len()] == k);
            }
        }
    }
    assert forall|i: int, j: int| 0 <= i < out.len() && 0 <= j < out.len() && i != j implies out[i]
        != out[j] by {
        if i < a.1.len() && j < a.1.len() {
        } else if i >= a.1.len() && j >= a.1.len() {
            assert(out[i] == b.1[i - a.1.len()]);
            assert(out[j] == b.1[j - a.1.len()]);
        } else {
            let (x, y) = if i < a.1.len() {
                (i, j - a.1.len())
            } else {
                (j, i - a.1.len())
            };
            let k = a.1[x];
            assert(0 <= k < em.len());
            assert(a.1.contains(k));
            assert(a.0[k]);
            assert(b.1[y] != k) by {
                if b.1[y] == k {
                    assert(b.1.contains(k));
                }
            }
        }
    }
}

proof fn lemma_dfs_places(cs: Seq<ComponentInstanceV>, idx: int, em: Seq<bool>)
    ensures
        places(em, dfs(cs, idx, em)),
    decreases unplaced(em), 0int,
{
    if !(0 <= idx < em.len()) || em[idx] {
        assert(dfs(cs, idx, em).1 =~= Seq::<int>::empty());
    } else {
        let em1 = em.update(idx, true);
        lemma_unplaced_update(em, idx);
        lemma_dfs_children_places(cs, idx, 0, em1);
        lemma_dfs_children_in_range(cs, idx, 0, em1);
        let r = dfs_children(cs, idx, 0, em1);
        let first: (Seq<bool>, Seq<int>) = (em1, seq![idx]);
        assert(places(em, first)) by {
            assert forall|k: int| 0 <= k < em.len() implies (first.1.contains(k) <==> (first.0[k]
                && !em[k])) by {
                if k == idx {
                    assert(first.1[0] == k);
                }
            }
        }
        lemma_places_chain(em, first, r);
        assert(seq![idx] + r.1 == dfs(cs, idx, em).1);
    }
}

proof fn lemma_dfs_children_places(cs: Seq<ComponentInstanceV>, p: int, j: int, em: Seq<bool>)
    ensures
        places(em, dfs_children(cs, p, j, em)),
    decreases unplaced(em), em.len() - j + 1,
{
    if !(0 <= j < em.len()) {
        assert(dfs_children(cs, p, j, em).1 =~= Seq::<int>::empty());
    } else if !em[j] && j < cs.len() && 0 <= p < cs.len() && is_child(cs, p, j) {
        lemma_dfs_places(cs, j, em);
        lemma_dfs_in_range(cs, j, em);
        let r = dfs(cs, j, em);
        if unplaced(r.0) <= unplaced(em) && r.0.len() == em.len() {
            lemma_dfs_children_places(cs, p, j + 1, r.0);
            lemma_dfs_children_in_range(cs, p, j + 1, r.0);
            lemma_places_chain(em, r, dfs_children(cs, p, j + 1, r.0));
        }
    } else {
        lemma_dfs_children_places(cs, p, j + 1, em);
    }
}

proof fn lemma_unplaced_indices_exact(em: Seq<bool>, n: int)
    requires
        0 <= n <= em.len(),
    ensures
        unplaced_indices(em, n).no_duplicates(),
        forall|k: int| 0 <= k < n ==> (unplaced_indices(em, n).contains(k) <==> !em[k]),
        forall|q: int|
            0 <= q < unplaced_indices(em, n).len() ==> 0 <= #[trigger] unplaced_indices(em, n)[q]
                < n,
    decreases n,
{
    lemma_unplaced_indices_in_range(em, n);
    if n > 0 {
        lemma_unplaced_indices_exact(em, n - 1);
        let prev = unplaced_indices(em, n - 1);
        lemma_unplaced_indices_in_range(em, n - 1);
        if !em[n - 1] {
            let cur = prev.push(n - 1);
            assert forall|k: int| 0 <= k < n implies (cur.contains(k) <==> !em[k]) by {
                if k == n - 1 {
                    assert(cur[prev.len() as int] == k);
                } else if cur.contains(k) {
                    let q = choose|q: int| 0 <= q < cur.len() && cur[q] == k;
                    assert(q < prev.len());
                    assert(prev[q] == k);
                } else if !em[k] {
                    let q = choose|q: int| 0 <= q < prev.len() && prev[q] == k;
                    assert(cur[q] == k);
                }
            }
            assert forall|a: int, b: int| 0 <= a < cur.len() && 0 <= b < cur.len() && a != b implies cur[a]
                != cur[b] by {
                if a < prev.len() && b < prev.len() {
                } else if a < prev.len() {
                    assert(prev[a] < n - 1);
                } else if b < prev.len() {
                    assert(prev[b] < n - 1);
                }
            }
        }
    }
}

/// The nesting order is a permutation of the components: every
/// component's index occurs in it exactly once, and nothing else does.
pub proof fn lemma_nesting_order_permutation(cs: Seq<ComponentInstanceV>)
    ensures
        nesting_order(cs).no_duplicates(),
        forall|k: int| 0 <= k < cs.len() ==> nesting_order(cs).contains(k),
        forall|q: int|
            0 <= q < nesting_order(cs).len() ==> 0 <= #[trigger] nesting_order(cs)[q] < cs.len(),
{
    lemma_order_in_range(cs);
    match first_root(cs, 0) {
        None => {
            let s = Seq::new(cs.len(), |i: int| i);
            assert forall|k: int| 0 <= k < cs.len() implies s.contains(k) by {
                assert(s[k] == k);
            }
        },
        Some(m) => {
            let em0 = Seq::new(cs.len(), |i: int| false);
            lemma_dfs_places(cs, m, em0);
            lemma_dfs_in_range(cs, m, em0);
            let r = dfs(cs, m, em0);
            lemma_unplaced_indices_exact(r.0, cs.len() as int);
            let u = unplaced_indices(r.0, cs.len() as int);
            // Everything not placed by the walk follows it, in source order.
            let out = r.1 + u;
            assert forall|k: int| 0 <= k < cs.len() implies out.contains(k) by {
                assert(em0[k] == false);
                if r.0[k] {
                    assert(r.1.contains(k));
                    let q = choose|q: int| 0 <= q < r.1.len() && r.1[q] == k;
                    assert(out[q] == k);
                } else {
                    assert(u.contains(k));
                    let q = choose|q: int| 0 <= q < u.len() && u[q] == k;
                    assert(out[q + r.1.len()] == k);
                }
            }
            assert forall|i: int, j: int| 0 <= i < out.len() && 0 <= j < out.len() && i != j implies out[i]
                != out[j] by {
                if i < r.1.len() && j < r.1.len() {
                } else if i >= r.1.len() && j >= r.1.len() {
                    assert(out[i] == u[i - r.1.len()]);
                    assert(out[j] == u[j - r.1.len()]);
                } else {
                    let (x, y) = if i < r.1.len() {
                        (i, j - r.1.len())
                    } else {
                        (j, i - r.1.len())
                    };
                    let k = r.1[x];
                    assert(0 <= k < cs.len());
                    assert(em0[k] == false);
                    assert(r.1.contains(k));
                    assert(r.0[k]);
                    assert(u[y] != k) by {
                        if u[y] == k {
                            assert(u.contains(k));
                        }
                    }
                }
            }
        },
    }
}

// ----- the witness calculator's arithmetic -------------------------------------------

/// 64-bit FNV-1a over the bytes.
pub open spec fn fnv_upto(bs: Seq<u8>, n: int) -> u64
    decreases n,
{
    if n <= 0 || n > bs.len() {
        0xCBF2_9CE4_8422_2325u64
    } else {
        (fnv_upto(bs, n - 1) ^ (bs[n - 1] as u64)).wrapping_mul(0x0100_0000_01B3u64)
    }
}

pub open spec fn fnv1a(bs: Seq<u8>) -> u64 {
    fnv_upto(bs, bs.len() as int)
}

/// The 64-bit FNV-1a hash of a signal name's bytes, as Circom's witness
/// calculator computes it to address input signals.
pub fn fnv_hash(name: &str) -> (r: u64)
    ensures
        r == fnv1a(name.spec_bytes()),
{
    let bs = name.as_bytes();
    let mut hash: u64 = 0xCBF2_9CE4_8422_2325;
    let mut i: usize = 0;
    while i < bs.len()
        invariant
            bs@ == name.spec_bytes(),
            i <= bs@.len(),
            hash == fnv_upto(bs@, i as int),
        decreases bs.len() - i,
    {
        hash = (hash ^ (bs[i] as u64)).wrapping_mul(0x0100_0000_01B3);
        i += 1;
    }
    hash
}

/// The number that little-endian bytes stand for.
pub open spec fn le_value(b: Seq<u8>) -> nat
    decreases b.len(),
{
    if b.len() == 0 {
        0
    } else {
        b[0] as nat + 256 * le_value(b.drop_first())
    }
}

pub open spec fn pow256(k: nat) -> nat
    decreases k,
{
    if k == 0 {
        1
    } else {
        256 * pow256((k - 1) as nat)
    }
}

pub proof fn lemma_le_bound(b: Seq<u8>)
    ensures
        le_value(b) < pow256(b.len()),
    decreases b.len(),
{
    if b.len() > 0 {
        lemma_le_bound(b.drop_first());
        let x = le_value(b.drop_first());
        let p = pow256(b.drop_first().len());
        let c = b[0] as nat;
        assert(c + 256 * x < 256 * p) by (nonlinear_arith)
            requires
                x < p,
                c <= 255,
        ;
    }
}

proof fn lemma_pow256_mono(a: nat, b: nat)
    requires
        a <= b,
    ensures
        pow256(a) <= pow256(b),
    decreases b,
{
    if a < b {
        lemma_pow256_mono(a, (b - 1) as nat);
        assert(pow256(b) == 256 * pow256((b - 1) as nat));
    }
}

proof fn lemma_pow256_pos(a: nat)
    ensures
        pow256(a) >= 1,
    decreases a,
{
    if a > 0 {
        lemma_pow256_pos((a - 1) as nat);
    }
}

/// A nonzero byte at `t` makes the number at least `256^t`.
proof fn lemma_le_nonzero(b: Seq<u8>, t: int)
    requires
        0 <= t < b.len(),
        b[t] != 0,
    ensures
        le_value(b) >= pow256(t as nat),
    decreases t,
{
    if t > 0 {
        lemma_le_nonzero(b.drop_first(), t - 1);
        assert(le_value(b) >= 256 * le_value(b.drop_first()));
        assert(pow256(t as nat) == 256 * pow256((t - 1) as nat));
    }
}

/// Bytes past `k` that are all zero add nothing.
proof fn lemma_le_zero_tail(b: Seq<u8>, k: int)
    requires
        0 <= k <= b.len(),
        forall|t: int| k <= t < b.len() ==> b[t] == 0,
    ensures
        le_value(b) == le_value(b.take(k)),
    decreases b.len(),
{
    if b.len() > 0 {
        if k == 0 {
            lemma_le_all_zero(b);
            assert(b.take(0) =~= Seq::<u8>::empty());
        } else {
            lemma_le_zero_tail(b.drop_first(), k - 1);
            assert(b.drop_first().take(k - 1) =~= b.take(k).drop_first());
        }
    }
}

proof fn lemma_le_all_zero(b: Seq<u8>)
    requires
        forall|t: int| 0 <= t < b.len() ==> b[t] == 0,
    ensures
        le_value(b) == 0,
    decreases b.len(),
{
    if b.len() > 0 {
        lemma_le_all_zero(b.drop_first());
    }
}

/// The value a witness entry shows as: the number when it fits in `i64`,
/// else 0.
pub open spec fn witness_i64(b: Seq<u8>) -> i64 {
    if le_value(b) <= i64::MAX {
        le_value(b) as i64
    } else {
        0
    }
}

/// A witness value given by its little-endian bytes, as an `i64` for the
/// trace: the value itself when it fits, 0 otherwise.
pub fn bigint_to_i64(le_bytes: &[u8]) -> (r: i64)
    ensures
        r == witness_i64(le_bytes@),
{
    let b = le_bytes;
    let n = b.len();
    let m = if n <= 8 {
        n
    } else {
        8
    };
    proof {
        reveal_with_fuel(pow256, 9);
        assert(pow256(8) == 0x1_0000_0000_0000_0000);
    }
    if n > 8 {
        let mut t: usize = 8;
        while t < n
            invariant
                n == b@.len(),
                b@ == le_bytes@,
                8 <= t <= n,
                forall|q: int| 8 <= q < t ==> b@[q] == 0,
            decreases n - t,
        {
            if b[t] != 0 {
                proof {
                    lemma_le_nonzero(b@, t as int);
                    lemma_pow256_mono(8, t as nat);
                    reveal_with_fuel(pow256, 9);
                    assert(pow256(8) == 0x1_0000_0000_0000_0000);
                }
                return 0;
            }
            t += 1;
        }
        proof {
            lemma_le_zero_tail(b@, 8);
        }
    } else {
        assert(b@.take(n as int) =~= b@);
    }
    let mut raw: u64 = 0;
    let mut i: usize = m;
    assert(b@.subrange(m as int, m as int) =~= Seq::<u8>::empty());
    while i > 0
        invariant
            m <= 8,
            m <= b@.len(),
            i <= m,
            raw as int == le_value(b@.subrange(i as int, m as int)),
            le_value(b@.subrange(i as int, m as int)) < pow256((m - i) as nat),
        decreases i,
    {
        proof {
            lemma_pow256_mono((m - i) as nat, 7);
            reveal_with_fuel(pow256, 8);
            assert(pow256(7) == 0x100_0000_0000_0000);
        }
        i -= 1;
        let c = b[i];
        proof {
            let s = b@.subrange(i as int, m as int);
            assert(s.drop_first() =~= b@.subrange(i + 1, m as int));
            assert(s[0] == c);
            let x = raw as int;
            let p = pow256((m - i - 1) as nat);
            assert(pow256((m - i) as nat) == 256 * p);
            assert(x * 256 + c < 256 * p) by (nonlinear_arith)
                requires
                    x < p,
                    c <= 255,
            ;
        }
        raw = raw * 256 + c as u64;
    }
    assert(b@.subrange(0, m as int) =~= b@.take(m as int));
    if raw <= 0x7fff_ffff_ffff_ffff {
        raw as i64
    } else {
        0
    }
}

/// Bytes `[4i, 4i + 4)` of `b`, cut at its end.
pub open spec fn chunk4(b: Seq<u8>, i: int) -> Seq<u8> {
    let lo = if 4 * i <= b.len() {
        4 * i
    } else {
        b.len() as int
    };
    let hi = if 4 * i + 4 <= b.len() {
        4 * i + 4
    } else {
        b.len() as int
    };
    b.subrange(lo, hi)
}

/// `size` little-endian 32-bit limbs of a number given by its
/// little-endian bytes (the bytes beyond them are dropped).
pub open spec fn limbs_of(b: Seq<u8>, size: int) -> Seq<u32> {
    Seq::new(size as nat, |i: int| le_value(chunk4(b, i)) as u32)
}

/// Byte `j` of a number given by its little-endian bytes: the byte itself,
/// or 0 past the end.
proof fn lemma_le_byte(c: Seq<u8>, j: nat)
    ensures
        (le_value(c) / pow256(j)) % 256 == (if j < c.len() {
            c[j as int] as nat
        } else {
            0
        }),
    decreases j,
{
    lemma_pow256_pos(j);
    if c.len() == 0 {
        assert(le_value(c) == 0);
        assert(0nat / pow256(j) == 0);
    } else {
        let c0 = c[0] as nat;
        let r = le_value(c.drop_first());
        assert(le_value(c) == c0 + 256 * r);
        assert((c0 + 256 * r) / 256 == r && (c0 + 256 * r) % 256 == c0) by (nonlinear_arith)
            requires
                c0 < 256,
        ;
        if j == 0 {
            assert(le_value(c) / 1 == le_value(c));
        } else {
            let p = pow256((j - 1) as nat);
            lemma_pow256_pos((j - 1) as nat);
            assert(pow256(j) == 256 * p);
            vstd::arithmetic::div_mod::lemma_div_denominator(le_value(c) as int, 256, p as int);
            lemma_le_byte(c.drop_first(), (j - 1) as nat);
            if j < c.len() {
                assert(c.drop_first()[j - 1] == c[j as int]);
            }
        }
    }
}

/// The bytes of `size` limbs, each as its four bytes: those of the number,
/// zero past its end, cut off after `4 * size`.
proof fn lemma_limbs_bytes_at(b: Seq<u8>, size: nat, k: int)
    requires
        0 <= k < 4 * size,
    ensures
        limbs_bytes(limbs_of(b, size as int))[k] == (if k < b.len() {
            b[k]
        } else {
            0u8
        }),
{
    let l = limbs_of(b, size as int);
    let i = k / 4;
    let j = k % 4;
    let c = chunk4(b, i);
    lemma_le_bound(c);
    reveal_with_fuel(pow256, 5);
    assert(c.len() <= 4);
    lemma_pow256_mono(c.len(), 4);
    assert(l[i] as nat == le_value(c));
    lemma_le_byte(c, j as nat);
    if k < b.len() {
        assert(c[j] == b[k]);
    }
}

/// Limbs and back keep the number: the bytes made from `size` limbs of a
/// number below `256^(4 size)` stand for the same number.
pub proof fn lemma_limbs_round_trip(b: Seq<u8>, size: nat)
    requires
        le_value(b) < pow256(4 * size),
    ensures
        le_value(limbs_bytes(limbs_of(b, size as int))) == le_value(b),
{
    let lb = limbs_bytes(limbs_of(b, size as int));
    assert forall|k: int| 0 <= k < lb.len() implies lb[k] == (if k < b.len() {
        b[k]
    } else {
        0u8
    }) by {
        lemma_limbs_bytes_at(b, size, k);
    }
    if b.len() <= lb.len() {
        lemma_le_zero_tail(lb, b.len() as int);
        assert(lb.take(b.len() as int) =~= b);
    } else {
        let m = lb.len() as int;
        assert forall|t: int| m <= t < b.len() implies b[t] == 0 by {
            if b[t] != 0 {
                lemma_le_nonzero(b, t);
                lemma_pow256_mono((4 * size) as nat, t as nat);
            }
        }
        lemma_le_zero_tail(b, m);
        assert(b.take(m) =~= lb);
    }
}

/// Little-endian 32-bit limbs of a number, `size` of them.
pub fn to_array32_le(le_bytes: &[u8], size: usize) -> (r: Vec<u32>)
    ensures
        r@ == limbs_of(le_bytes@, size as int),
{
    let b = le_bytes;
    let n = b.len();
    let mut out: Vec<u32> = Vec::new();
    let mut i: usize = 0;
    while i < size
        invariant
            n == b@.len(),
            i <= size,
            out@ == limbs_of(b@, i as int),
        decreases size - i,
    {
        let v: u32 = if n == 0 || i > (n - 1) / 4 {
            proof {
                assert(chunk4(b@, i as int) =~= Seq::<u8>::empty());
            }
            0
        } else {
            let lo = 4 * i;
            let hi = if n - lo >= 4 {
                lo + 4
            } else {
                n
            };
            let mut x: u32 = 0;
            let mut k = hi;
            assert(b@.subrange(hi as int, hi as int) =~= Seq::<u8>::empty());
            while k > lo
                invariant
                    lo <= k <= hi <= n,
                    hi - lo <= 4,
                    n == b@.len(),
                    x as int == le_value(b@.subrange(k as int, hi as int)),
                    le_value(b@.subrange(k as int, hi as int)) < pow256((hi - k) as nat),
                decreases k,
            {
                proof {
                    lemma_pow256_mono((hi - k) as nat, 3);
                    reveal_with_fuel(pow256, 4);
                }
                k -= 1;
                let c = b[k];
                proof {
                    let s = b@.subrange(k as int, hi as int);
                    assert(s.drop_first() =~= b@.subrange(k + 1, hi as int));
                    assert(s[0] == c);
                    let xx = x as int;
                    let p = pow256((hi - k - 1) as nat);
                    assert(pow256((hi - k) as nat) == 256 * p);
                    assert(xx * 256 + c < 256 * p) by (nonlinear_arith)
                        requires
                            xx < p,
                            c <= 255,
                    ;
                }
                x = x * 256 + c as u32;
            }
            assert(chunk4(b@, i as int) =~= b@.subrange(lo as int, hi as int));
            x
        };
        out.push(v);
        assert(out@ =~= limbs_of(b@, i + 1));
        i += 1;
    }
    out
}

/// The little-endian bytes of little-endian 32-bit limbs, four per limb.
pub open spec fn limbs_bytes(l: Seq<u32>) -> Seq<u8> {
    Seq::new(4 * l.len(), |k: int| ((l[k / 4] as nat / pow256((k % 4) as nat)) % 256) as u8)
}

/// The little-endian bytes of a number given by little-endian 32-bit
/// limbs.
pub fn from_array32_le(limbs: &[u32]) -> (r: Vec<u8>)
    ensures
        r@ == limbs_bytes(limbs@),
{
    let mut out: Vec<u8> = Vec::new();
    let mut i: usize = 0;
    proof {
        reveal_with_fuel(pow256, 4);
    }
    while i < limbs.len()
        invariant
            i <= limbs@.len(),
            out@.len() == 4 * i,
            pow256(0) == 1 && pow256(1) == 256 && pow256(2) == 65536 && pow256(3) == 16777216,
            forall|k: int| 0 <= k < 4 * i ==> out@[k] == limbs_bytes(limbs@)[k],
        decreases limbs.len() - i,
    {
        let x = limbs[i];
        out.push((x % 256) as u8);
        out.push(((x / 256) % 256) as u8);
        out.push(((x / 65536) % 256) as u8);
        out.push(((x / 16777216) % 256) as u8);
        proof {
            let lb = limbs_bytes(limbs@);
            let b0 = 4 * i as int;
            assert(b0 / 4 == i && b0 % 4 == 0);
            assert((b0 + 1) / 4 == i && (b0 + 1) % 4 == 1);
            assert((b0 + 2) / 4 == i && (b0 + 2) % 4 == 2);
            assert((b0 + 3) / 4 == i && (b0 + 3) % 4 == 3);
            assert(x as nat / pow256(0) == x as nat);
            assert(lb[b0] == ((x as nat / pow256(0)) % 256) as u8);
            assert(out@[b0] == lb[b0]);
            assert(out@[b0 + 1] == lb[b0 + 1]);
            assert(out@[b0 + 2] == lb[b0 + 2]);
            assert(out@[b0 + 3] == lb[b0 + 3]);
        }
        i += 1;
    }
    assert(out@ =~= limbs_bytes(limbs@));
    out
}

/// The number held by `d[lo..hi]` in little-endian order, for at most eight
/// bytes.
pub fn le_read(d: &[u8], lo: usize, hi: usize) -> (r: u64)
    requires
        lo <= hi <= d@.len(),
        hi - lo <= 8,
    ensures
        r as int == le_value(d@.subrange(lo as int, hi as int)),
{
    let mut x: u64 = 0;
    let mut k = hi;
    assert(d@.subrange(hi as int, hi as int) =~= Seq::<u8>::empty());
    while k > lo
        invariant
            lo <= k <= hi <= d@.len(),
            hi - lo <= 8,
            x as int == le_value(d@.subrange(k as int, hi as int)),
            le_value(d@.subrange(k as int, hi as int)) < pow256((hi - k) as nat),
        decreases k,
    {
        proof {
            lemma_pow256_mono((hi - k) as nat, 7);
            reveal_with_fuel(pow256, 8);
            assert(pow256(7) == 0x100_0000_0000_0000);
        }
        k -= 1;
        let c = d[k];
        proof {
            let s = d@.subrange(k as int, hi as int);
            assert(s.drop_first() =~= d@.subrange(k + 1, hi as int));
            assert(s[0] == c);
            let xx = x as int;
            let p = pow256((hi - k - 1) as nat);
            assert(pow256((hi - k) as nat) == 256 * p);
            assert(xx * 256 + c < 256 * p) by (nonlinear_arith)
                requires
                    xx < p,
                    c <= 255,
            ;
        }
        x = x * 256 + c as u64;
    }
    x
}

} // verus!

verus! {

// ----- parents come before their children in the nesting order ------------------

/// The components that the depth-first walk from the file-scope component
/// reaches, in the order it reaches them; none without such a component.
pub open spec fn nesting_walk(cs: Seq<ComponentInstanceV>) -> Seq<int> {
    match first_root(cs, 0) {
        None => Seq::empty(),
        Some(m) => dfs(cs, m, Seq::new(cs.len(), |i: int| false)).1,
    }
}

/// Each entry of `s` is a child of `p` or of an entry before it.
pub open spec fn parent_first(cs: Seq<ComponentInstanceV>, p: int, s: Seq<int>) -> bool {
    forall|q: int|
        #![trigger s[q]]
        0 <= q < s.len() ==> is_child(cs, p, s[q]) || exists|q2: int|
            0 <= q2 < q && is_child(cs, s[q2], s[q])
}

/// Each entry of `s` after the first is a child of an entry before it:
/// `par` gives, for each position, the position of such a parent.
pub open spec fn parent_positions(cs: Seq<ComponentInstanceV>, s: Seq<int>, par: Seq<int>) -> bool {
    &&& par.len() == s.len()
    &&& forall|q: int|
        #![trigger s[q]]
        0 < q < s.len() ==> 0 <= par[q] < q && is_child(cs, s[par[q]], s[q])
}

/// Each entry of `s` after the first is a child of an entry before it.
pub open spec fn parents_before(cs: Seq<ComponentInstanceV>, s: Seq<int>) -> bool {
    exists|par: Seq<int>| parent_positions(cs, s, par)
}

proof fn lemma_cons_parents(cs: Seq<ComponentInstanceV>, idx: int, t: Seq<int>)
    requires
        parent_first(cs, idx, t),
    ensures
        parents_before(cs, seq![idx] + t),
{
    let s = seq![idx] + t;
    let par = Seq::new(
        s.len(),
        |q: int|
            if q == 0 || is_child(cs, idx, t[q - 1]) {
                0
            } else {
                (choose|q2: int| 0 <= q2 < q - 1 && is_child(cs, #[trigger] t[q2], t[q - 1])) + 1
            },
    );
    assert forall|q: int| #![trigger s[q]] 0 < q < s.len() implies 0 <= par[q] < q && is_child(
        cs,
        s[par[q]],
        s[q],
    ) by {
        assert(s[q] == t[q - 1]);
        if is_child(cs, idx, t[q - 1]) {
            assert(s[0] == idx);
        } else {
            let q2 = choose|q2: int| 0 <= q2 < q - 1 && is_child(cs, #[trigger] t[q2], t[q - 1]);
            assert(par[q] == q2 + 1);
            assert(s[q2 + 1] == t[q2]);
        }
    }
    assert(parent_positions(cs, s, par));
}

proof fn lemma_dfs_parent_first(cs: Seq<ComponentInstanceV>, idx: int, em: Seq<bool>)
    ensures
        dfs(cs, idx, em).1.len() > 0 ==> dfs(cs, idx, em).1[0] == idx,
        parents_before(cs, dfs(cs, idx, em).1),
    decreases unplaced(em), 0int,
{
    if !(0 <= idx < em.len()) || em[idx] {
        assert(dfs(cs, idx, em).1.len() == 0);
        assert(parent_positions(cs, dfs(cs, idx, em).1, dfs(cs, idx, em).1));
    } else {
        let em1 = em.update(idx, true);
        if unplaced(em1) >= unplaced(em) {
            assert(dfs(cs, idx, em).1 == seq![idx]);
            assert(dfs(cs, idx, em).1.len() == 1);
            assert(parent_positions(cs, dfs(cs, idx, em).1, dfs(cs, idx, em).1));
        } else {
            lemma_dfs_children_parent_first(cs, idx, 0, em1);
            let t = dfs_children(cs, idx, 0, em1).1;
            let s = seq![idx] + t;
            assert(s == dfs(cs, idx, em).1);
            lemma_cons_parents(cs, idx, t);
        }
    }
}

proof fn lemma_dfs_children_parent_first(cs: Seq<ComponentInstanceV>, p: int, j: int, em: Seq<bool>)
    ensures
        parent_first(cs, p, dfs_children(cs, p, j, em).1),
    decreases unplaced(em), em.len() - j + 1,
{
    let out = dfs_children(cs, p, j, em).1;
    if !(0 <= j < em.len()) {
    } else if !em[j] && j < cs.len() && 0 <= p < cs.len() && is_child(cs, p, j) {
        lemma_dfs_parent_first(cs, j, em);
        lemma_dfs_places(cs, j, em);
        let r = dfs(cs, j, em);
        if unplaced(r.0) <= unplaced(em) && r.0.len() == em.len() {
            lemma_dfs_children_parent_first(cs, p, j + 1, r.0);
            let r2 = dfs_children(cs, p, j + 1, r.0).1;
            assert(out == r.1 + r2);
            assert forall|q: int| 0 <= q < out.len() implies is_child(cs, p, #[trigger] out[q]) || exists|q2: int|
                0 <= q2 < q && is_child(cs, out[q2], out[q]) by {
                if q < r.1.len() {
                    assert(out[q] == r.1[q]);
                    if q > 0 {
                        let par = choose|par: Seq<int>| parent_positions(cs, r.1, par);
                        assert(r.1[q] == out[q]);
                        let q2 = par[q];
                        assert(out[q2] == r.1[q2]);
                    } else {
                        assert(r.1[0] == j);
                    }
                } else {
                    let k = q - r.1.len();
                    assert(out[q] == r2[k]);
                    if !is_child(cs, p, r2[k]) {
                        let q2 = choose|q2: int| 0 <= q2 < k && is_child(cs, #[trigger] r2[q2], r2[k]);
                        assert(out[q2 + r.1.len()] == r2[q2]);
                    }
                }
            }
        } else {
            assert forall|q: int| 0 <= q < out.len() implies is_child(cs, p, #[trigger] out[q]) || exists|q2: int|
                0 <= q2 < q && is_child(cs, out[q2], out[q]) by {
                if q == 0 {
                    assert(out[0] == j);
                }
            }
        }
    } else {
        lemma_dfs_children_parent_first(cs, p, j + 1, em);
    }
}

proof fn lemma_first_root_range(cs: Seq<ComponentInstanceV>, i: int)
    ensures
        first_root(cs, i) matches Some(m) ==> i <= m < cs.len(),
    decreases cs.len() - i,
{
    if 0 <= i < cs.len() && cs[i].parent_template is Some {
        lemma_first_root_range(cs, i + 1);
    }
}

/// The nesting order opens with the walk from the file-scope component:
/// that component first, and every component after it in the walk
/// declared in the template of one that comes before it.
pub proof fn lemma_nesting_order_parents_first(cs: Seq<ComponentInstanceV>)
    ensures
        nesting_walk(cs).is_prefix_of(nesting_order(cs)),
        first_root(cs, 0) matches Some(m) ==> nesting_walk(cs).len() > 0 && nesting_order(cs)[0]
            == m,
        parents_before(cs, nesting_walk(cs)),
{
    match first_root(cs, 0) {
        None => {
            assert(parent_positions(cs, nesting_walk(cs), nesting_walk(cs)));
        },
        Some(m) => {
            let em0 = Seq::new(cs.len(), |i: int| false);
            lemma_dfs_parent_first(cs, m, em0);
            let w = dfs(cs, m, em0).1;
            let u = unplaced_indices(dfs(cs, m, em0).0, cs.len() as int);
            let o = nesting_order(cs);
            assert(o == w + u);
            lemma_first_root_range(cs, 0);
            assert(0 <= m < em0.len() && !em0[m]);
            lemma_unplaced_update(em0, m);
            assert(w.len() > 0);
            assert(w =~= o.subrange(0, w.len() as int));
        },
    }
}

} // verus!

verus! {

// ----- how far a template body reaches --------------------------------------------------

/// Opening minus closing braces among the first `k` characters of `t`.
pub open spec fn net_braces(t: Seq<char>, k: int) -> int
    decreases k,
{
    if k <= 0 || k > t.len() {
        0
    } else {
        net_braces(t, k - 1) + if t[k - 1] == '{' {
            1int
        } else if t[k - 1] == '}' {
            -1int
        } else {
            0int
        }
    }
}

/// Whether the `}` at `k` of `t`, with `d` braces open before `t`, leaves
/// none open.
pub open spec fn closes_at(t: Seq<char>, d: int, k: int) -> bool {
    t[k] == '}' && d + net_braces(t, k + 1) <= 0
}

proof fn lemma_scan_close_from(t: Seq<char>, d: int, i: int)
    requires
        0 <= i <= t.len(),
        forall|j: int| 0 <= j < i ==> !#[trigger] closes_at(t, d, j),
    ensures
        scan_close(t, i, d + net_braces(t, i)).0 ==> exists|k: int|
            i <= k < t.len() && #[trigger] closes_at(t, d, k) && scan_close(t, i, d + net_braces(t, i)).1
                == d + net_braces(t, k + 1) && forall|j: int| 0 <= j < k ==> !#[trigger] closes_at(t, d, j),
        !scan_close(t, i, d + net_braces(t, i)).0 ==> scan_close(t, i, d + net_braces(t, i)).1 == d
            + net_braces(t, t.len() as int) && forall|j: int| 0 <= j < t.len() ==> !#[trigger] closes_at(t, d, j),
    decreases t.len() - i,
{
    if i < t.len() {
        let cur = d + net_braces(t, i);
        assert(net_braces(t, i + 1) == net_braces(t, i) + if t[i] == '{' {
            1int
        } else if t[i] == '}' {
            -1int
        } else {
            0int
        });
        if t[i] == '}' && cur - 1 <= 0 {
            assert(closes_at(t, d, i));
        } else {
            assert(!closes_at(t, d, i));
            assert forall|j: int| 0 <= j < i + 1 implies !#[trigger] closes_at(t, d, j) by {
                if j < i {
                }
            }
            lemma_scan_close_from(t, d, i + 1);
        }
    }
}

/// A template body closes at the first `}` that leaves none of its braces
/// open: scanning a line with `d` braces open, the scan reports a close
/// exactly where some `}` brings the count of open braces to 0 or below,
/// stops at the first such `}` with the count there, and otherwise runs to
/// the end of the line with the count of the whole line.
pub proof fn lemma_scan_close_balance(t: Seq<char>, d: int)
    ensures
        scan_close(t, 0, d).0 <==> exists|k: int| 0 <= k < t.len() && #[trigger] closes_at(t, d, k),
        scan_close(t, 0, d).0 ==> exists|k: int|
            0 <= k < t.len() && #[trigger] closes_at(t, d, k) && scan_close(t, 0, d).1 == d
                + net_braces(t, k + 1) && forall|j: int| 0 <= j < k ==> !#[trigger] closes_at(t, d, j),
        !scan_close(t, 0, d).0 ==> scan_close(t, 0, d).1 == d + net_braces(t, t.len() as int),
{
    assert(net_braces(t, 0) == 0);
    assert(d + net_braces(t, 0) == d);
    lemma_scan_close_from(t, d, 0);
}

proof fn lemma_brace_track_from(t: Seq<char>, d: int, i: int, inside: bool, named: bool)
    requires
        0 <= i <= t.len(),
    ensures
        brace_track(t, i, d + net_braces(t, i), inside, named) == (
            d + net_braces(t, t.len() as int),
            if named && exists|k: int| i <= k < t.len() && #[trigger] closes_at(t, d, k) {
                false
            } else {
                inside
            },
        ),
    decreases t.len() - i,
{
    if i < t.len() {
        assert(net_braces(t, i + 1) == net_braces(t, i) + if t[i] == '{' {
            1int
        } else if t[i] == '}' {
            -1int
        } else {
            0int
        });
        let cur = d + net_braces(t, i);
        let c = t[i] == '}' && cur - 1 <= 0 && named;
        let inside2 = if c {
            false
        } else {
            inside
        };
        lemma_brace_track_from(t, d, i + 1, inside2, named);
        if named && exists|k: int| i <= k < t.len() && #[trigger] closes_at(t, d, k) {
            let k = choose|k: int| i <= k < t.len() && #[trigger] closes_at(t, d, k);
            if k > i {
                assert(i + 1 <= k);
            }
        }
        if named && exists|k: int| i + 1 <= k < t.len() && #[trigger] closes_at(t, d, k) {
            let k = choose|k: int| i + 1 <= k < t.len() && #[trigger] closes_at(t, d, k);
            assert(i <= k);
        }
        if c {
            assert(closes_at(t, d, i));
        }
    }
}

/// Tracking braces over a line with `d` open before it: the count after
/// the line is `d` plus its opening braces minus its closing ones, and a
/// named template's body is left exactly where some `}` brings the count to
/// 0 or below.
pub proof fn lemma_brace_track_balance(t: Seq<char>, d: int, inside: bool, named: bool)
    ensures
        brace_track(t, 0, d, inside, named).0 == d + net_braces(t, t.len() as int),
        brace_track(t, 0, d, inside, named).1 == if named && exists|k: int|
            0 <= k < t.len() && #[trigger] closes_at(t, d, k) {
            false
        } else {
            inside
        },
{
    assert(d + net_braces(t, 0) == d);
    lemma_brace_track_from(t, d, 0, inside, named);
}

} // verus!
