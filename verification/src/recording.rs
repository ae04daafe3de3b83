//! The decisions of a recording run: which signal values the witness
//! gives, which inputs the witness calculator is fed, how the calculator's
//! log output is gathered, and the switches read from the environment.

use vstd::prelude::*;
use crate::cpp_witness::bytes_views;
use crate::text::{append_chars, decimal, decimal_exec, str_chars, string_from_chars};
use crate::tracer::{
    InputSignalDecl, InputSignalDeclV, SymbolEntry, SymbolEntryV, bigint_to_i64, bind_generic_args,
    build_witness_inputs, dims_size, distinct_names, find_main_template_args,
    find_main_template_name, find_template_generic_params, fnv1a, fnv_hash, input_decls_of,
    input_decls_view, input_sizes_fit, inputs_pairs, main_template_args, main_template_name,
    scan_input_decls, sym_view, template_generic_params, witness_i64, witness_inputs,
};
use crate::value::{pairs_map, signals_map, signals_pairs};
use vstd::string::StringSliceAdditionalSpecFns;

verus! {

// ----- signal values from the witness -------------------------------------------------

/// `(name, value)` for each symbol whose witness index lies in the
/// witness, in symbol order.
pub open spec fn named_values(syms: Seq<SymbolEntryV>, wit: Seq<Seq<u8>>) -> Seq<(Seq<char>, i64)>
    decreases syms.len(),
{
    if syms.len() == 0 {
        Seq::empty()
    } else {
        let prev = named_values(syms.drop_last(), wit);
        let s = syms.last();
        if s.witness_index < wit.len() {
            prev.push((s.name, witness_i64(wit[s.witness_index as int])))
        } else {
            prev
        }
    }
}

/// `(full name, value)` for each symbol whose witness index lies in the
/// witness, in symbol order.
pub open spec fn full_named_values(syms: Seq<SymbolEntryV>, wit: Seq<Seq<u8>>) -> Seq<
    (Seq<char>, i64),
>
    decreases syms.len(),
{
    if syms.len() == 0 {
        Seq::empty()
    } else {
        let prev = full_named_values(syms.drop_last(), wit);
        let s = syms.last();
        if s.witness_index < wit.len() {
            prev.push((s.full_name, witness_i64(wit[s.witness_index as int])))
        } else {
            prev
        }
    }
}

fn copy_string(s: &String) -> (r: String)
    ensures
        r@ == s@,
{
    let cs = str_chars(s.as_str());
    string_from_chars(&cs)
}

/// The signal values that the witness gives: for each symbol whose index
/// lies in the witness (each entry a number's little-endian bytes), its
/// value as `i64` (0 where it does not fit) under its name and under its
/// full name.
pub fn map_symbol_values(symbols: &[SymbolEntry], witness: &Vec<Vec<u8>>) -> (r: (
    Vec<(String, i64)>,
    Vec<(String, i64)>,
))
    ensures
        signals_pairs(r.0@) == named_values(sym_view(symbols@), bytes_views(witness@)),
        signals_pairs(r.1@) == full_named_values(sym_view(symbols@), bytes_views(witness@)),
{
    let ghost sv = sym_view(symbols@);
    let ghost wv = bytes_views(witness@);
    let mut values: Vec<(String, i64)> = Vec::new();
    let mut full: Vec<(String, i64)> = Vec::new();
    let mut i: usize = 0;
    assert(signals_pairs(values@) =~= named_values(sv.take(0), wv));
    assert(signals_pairs(full@) =~= full_named_values(sv.take(0), wv));
    while i < symbols.len()
        invariant
            i <= symbols@.len(),
            sv == sym_view(symbols@),
            wv == bytes_views(witness@),
            wv.len() == witness@.len(),
            signals_pairs(values@) == named_values(sv.take(i as int), wv),
            signals_pairs(full@) == full_named_values(sv.take(i as int), wv),
        decreases symbols.len() - i,
    {
        let s = &symbols[i];
        assert(sv.take(i + 1).drop_last() =~= sv.take(i as int));
        assert(sv.take(i + 1).last() == s@);
        if s.witness_index < witness.len() {
            let v = bigint_to_i64(witness[s.witness_index].as_slice());
            assert(wv[s.witness_index as int] == witness@[s.witness_index as int]@);
            let ghost pv = values@;
            let ghost pf = full@;
            values.push((copy_string(&s.name), v));
            full.push((copy_string(&s.full_name), v));
            assert(signals_pairs(values@) =~= signals_pairs(pv).push((s.name@, v)));
            assert(signals_pairs(full@) =~= signals_pairs(pf).push((s.full_name@, v)));
        }
        i += 1;
    }
    assert(sv.take(symbols@.len() as int) =~= sv);
    (values, full)
}

// ----- the inputs fed to the witness calculator -------------------------------------

/// The main template's generic parameters bound pairwise to the main
/// component's arguments (the shorter list decides how many).
pub open spec fn main_generic_env(src: Seq<char>) -> Map<Seq<char>, i64> {
    let ps = template_generic_params(src, main_template_name(src));
    let args = main_template_args(src);
    pairs_map(
        Seq::new(
            if ps.len() <= args.len() {
                ps.len()
            } else {
                args.len()
            },
            |i: int| (ps[i], args[i]),
        ),
    )
}

/// The main template's `signal input` declarations; `None` where one of
/// them cannot be read.
pub open spec fn main_input_decls(src: Seq<char>) -> Option<Seq<InputSignalDeclV>> {
    input_decls_of(src, main_template_name(src))
}

/// Whether the inputs of the main template can be prepared: its input
/// declarations are readable, and each value count fits in `usize`.
pub open spec fn main_inputs_ready(src: Seq<char>) -> bool {
    &&& main_input_decls(src) is Some
    &&& forall|i: int|
        0 <= i < main_input_decls(src)->0.len() ==> dims_size(
            #[trigger] main_input_decls(src)->0[i].dims,
            main_generic_env(src),
        ) <= usize::MAX
}

/// The inputs fed to the witness calculator: each `signal input` of the
/// main template with as many `"0"` values as its dimensions ask, the
/// dimensions read with the main template's generic parameters bound to
/// the main component's arguments.  `None` where they cannot be prepared.
pub fn main_witness_inputs(source: &str) -> (r: Option<Vec<(String, Vec<String>)>>)
    ensures
        match r {
            Some(v) => main_inputs_ready(source@) && pairs_map(inputs_pairs(v@)) == witness_inputs(
                main_input_decls(source@)->0,
                main_generic_env(source@),
            ) && distinct_names(v@),
            None => !main_inputs_ready(source@),
        },
{
    let name = find_main_template_name(source);
    let args = find_main_template_args(source);
    let name_ref: Option<&str> = match &name {
        Some(n) => Some(n.as_str()),
        None => None,
    };
    let ghost tg: Option<Seq<char>> = main_template_name(source@);
    assert(match name_ref {
        Some(t) => Some(t@),
        None => None,
    } == tg);
    let decls = match scan_input_decls(source, name_ref) {
        Some(d) => d,
        None => {
            return None;
        },
    };
    let params = find_template_generic_params(source, name_ref);
    let env = bind_generic_args(params.as_slice(), args.as_slice());
    let ghost ps = template_generic_params(source@, tg);
    assert(signals_pairs(env@) =~= Seq::new(
        if ps.len() <= args@.len() {
            ps.len()
        } else {
            args@.len()
        },
        |i: int| (ps[i], args@[i]),
    )) by {
        assert forall|i: int| 0 <= i < signals_pairs(env@).len() implies signals_pairs(env@)[i] == (
        ps[i], args@[i]) by {
            assert(crate::parser::strs_view(params@)[i] == params@[i]@);
        }
    }
    assert(signals_map(env@) == main_generic_env(source@));
    let ghost dv = decls@.map_values(|d: InputSignalDecl| d@);
    assert(dv == input_decls_view(decls@));
    if !input_sizes_fit(decls.as_slice(), &env) {
        assert(!main_inputs_ready(source@)) by {
            if main_inputs_ready(source@) {
                assert forall|i: int| 0 <= i < decls@.len() implies dims_size(
                    #[trigger] decls@[i]@.dims,
                    signals_map(env@),
                ) <= usize::MAX by {
                    assert(dv[i] == decls@[i]@);
                    assert(main_input_decls(source@)->0[i] == dv[i]);
                    assert(dims_size(main_input_decls(source@)->0[i].dims, main_generic_env(source@))
                        <= usize::MAX);
                }
            }
        }
        return None;
    }
    let out = build_witness_inputs(decls.as_slice(), &env);
    proof {
        assert forall|i: int| 0 <= i < dv.len() implies dims_size(
            #[trigger] dv[i].dims,
            main_generic_env(source@),
        ) <= usize::MAX by {
            assert(dv[i] == decls@[i]@);
        }
    }
    Some(out)
}

// ----- the witness calculator ------------------------------------------------------------

/// The two 32-bit halves of a signal name's FNV-1a hash, high then low, as
/// the calculator's `setInputSignal` takes them.
pub fn signal_hash_parts(name: &str) -> (r: (i32, i32))
    ensures
        r.0 == (fnv1a(name.spec_bytes()) >> 32u64) as i32,
        r.1 == (fnv1a(name.spec_bytes()) & 0xFFFF_FFFFu64) as i32,
{
    let h = fnv_hash(name);
    let hi = #[verifier::truncate] ((h >> 32u64) as i32);
    let lo = #[verifier::truncate] ((h & 0xFFFF_FFFFu64) as i32);
    (hi, lo)
}

fn is_empty_text(s: &str) -> (r: bool)
    ensures
        r == (s@.len() == 0),
{
    str_chars(s).len() == 0
}

/// The calculator's log output: `log()` parts gathered into lines.
pub struct WitnessLog {
    /// The line being gathered.
    pub buffer: String,
    /// The finished lines.
    pub logs: Vec<String>,
}

/// The line after appending `part`: separated from what is there by a
/// space.
pub open spec fn appended(buffer: Seq<char>, part: Seq<char>) -> Seq<char> {
    if buffer.len() == 0 {
        part
    } else {
        buffer + seq![' '] + part
    }
}

impl WitnessLog {
    /// No lines yet.
    pub fn new() -> (r: WitnessLog)
        ensures
            r.buffer@ == Seq::<char>::empty(),
            r.logs@ == Seq::<String>::empty(),
    {
        WitnessLog { buffer: String::new(), logs: Vec::new() }
    }

    /// Adds a part to the line being gathered.
    pub fn append_log_part(&mut self, part: &str)
        ensures
            final(self).buffer@ == appended(old(self).buffer@, part@),
            final(self).logs@ == old(self).logs@,
    {
        let mut cs = str_chars(self.buffer.as_str());
        if cs.len() > 0 {
            cs.push(' ');
        }
        let ps = str_chars(part);
        crate::text::append_chars(&mut cs, &ps);
        self.buffer = string_from_chars(&cs);
        assert(self.buffer@ =~= appended(old(self).buffer@, part@));
    }

    /// A message the calculator wrote: a lone newline ends the line being
    /// gathered (an empty one is dropped); anything else is a part of it.
    pub fn on_message(&mut self, message: &str)
        ensures
            message@ == seq!['\n'] && old(self).buffer@.len() > 0 ==> final(self).logs@.len()
                == old(self).logs@.len() + 1 && final(self).logs@.last()@ == old(self).buffer@
                && final(self).logs@.drop_last() == old(self).logs@ && final(self).buffer@
                == Seq::<char>::empty(),
            message@ == seq!['\n'] && old(self).buffer@.len() == 0 ==> *final(self) == *old(self),
            message@ != seq!['\n'] ==> final(self).buffer@ == appended(old(self).buffer@, message@)
                && final(self).logs@ == old(self).logs@,
    {
        let ms = str_chars(message);
        if ms.len() == 1 && ms[0] == '\n' {
            assert(message@ =~= seq!['\n']);
            if !is_empty_text(self.buffer.as_str()) {
                let mut line = String::new();
                std::mem::swap(&mut line, &mut self.buffer);
                self.logs.push(line);
            }
        } else {
            assert(message@ != seq!['\n']) by {
                if message@ == seq!['\n'] {
                    assert(ms@ =~= seq!['\n']);
                }
            }
            self.append_log_part(message);
        }
    }

    /// The lines, with the one being gathered as the last where it is not
    /// empty.
    pub fn finish(self) -> (r: Vec<String>)
        ensures
            self.buffer@.len() == 0 ==> r@ == self.logs@,
            self.buffer@.len() > 0 ==> r@.len() == self.logs@.len() + 1 && r@.drop_last()
                == self.logs@ && r@.last()@ == self.buffer@,
    {
        let mut logs = self.logs;
        if !is_empty_text(self.buffer.as_str()) {
            logs.push(self.buffer);
        }
        logs
    }
}

// ----- compiler and environment switches -----------------------------------------

/// Whether the compiler's complaint shows that it does not know the source
/// map option: its error output names `srcmap` or says `unrecognized`.
pub open spec fn srcmap_unsupported_text(stderr: Seq<char>) -> bool {
    crate::text::find_seq(stderr, "srcmap"@) is Some || crate::text::find_seq(stderr, "unrecognized"@) is Some
}

pub fn srcmap_unsupported(stderr: &str) -> (r: bool)
    ensures
        r == srcmap_unsupported_text(stderr@),
{
    let cs = str_chars(stderr);
    let a = str_chars("srcmap");
    let b = str_chars("unrecognized");
    crate::text::find_seq_exec(&cs, &a).is_some() || crate::text::find_seq_exec(&cs, &b).is_some()
}

/// `c` with an ASCII capital made small.
pub open spec fn ascii_lower(c: char) -> char {
    if 'A' <= c && c <= 'Z' {
        ((c as u32) + 32) as char
    } else {
        c
    }
}

/// Whether a value of the switch that turns recording off does so: `1`, or
/// `true` in any ASCII letter case, white space around either ignored.
pub open spec fn disables_recording(value: Seq<char>) -> bool {
    let v = crate::text::trim(value);
    ||| v == seq!['1']
    ||| (v.len() == 4 && forall|k: int| 0 <= k < 4 ==> ascii_lower(#[trigger] v[k]) == seq![
        't',
        'r',
        'u',
        'e',
    ][k])
}

fn ascii_lower_exec(c: char) -> (r: char)
    ensures
        r == ascii_lower(c),
{
    if 'A' <= c && c <= 'Z' {
        let u = (c as u32) + 32;
        assert(u < 0xD800);
        #[verifier::truncate]
        (u as u8) as char
    } else {
        c
    }
}

/// Whether the value of the switch (absent when it is not set) turns
/// recording off.
pub fn recording_disabled(value: Option<&str>) -> (r: bool)
    ensures
        r == match value {
            Some(v) => disables_recording(v@),
            None => false,
        },
{
    match value {
        None => false,
        Some(v) => {
            let cs = str_chars(v);
            let t = crate::text::trim_chars(&cs);
            if t.len() == 1 && t[0] == '1' {
                assert(t@ =~= seq!['1']);
                return true;
            }
            if t.len() != 4 {
                assert(t@ != seq!['1']);
                return false;
            }
            let want = ['t', 'r', 'u', 'e'];
            let ghost w = seq!['t', 'r', 'u', 'e'];
            let mut k: usize = 0;
            while k < 4
                invariant
                    k <= 4,
                    t@.len() == 4,
                    t@ == crate::text::trim(v@),
                    want@ == w,
                    w == seq!['t', 'r', 'u', 'e'],
                    value == Some(v),
                    forall|j: int| 0 <= j < k ==> ascii_lower(#[trigger] t@[j]) == w[j],
                decreases 4 - k,
            {
                if ascii_lower_exec(t[k]) != want[k] {
                    assert(t@ != seq!['1']);
                    assert(ascii_lower(t@[k as int]) != w[k as int]);
                    assert(!disables_recording(v@));
                    return false;
                }
                k += 1;
            }
            true
        },
    }
}

/// The default output directory.
pub open spec fn default_out_dir() -> Seq<char> {
    "./ct-traces/"@
}

/// Where the output directory comes from.
#[derive(Debug, Clone, Copy, PartialEq, Eq)]
pub enum OutDirSource {
    /// The command line's `--out-dir`.
    Flag,
    /// The environment's value.
    Environment,
    /// `./ct-traces/`.
    Default,
}

/// Where the output directory comes from: the command line when it gives
/// one, else the environment when its value is set and not empty (`env_len`
/// is its length), else the default.
pub fn out_dir_source(flag_given: bool, env_len: Option<usize>) -> (r: OutDirSource)
    ensures
        r == (if flag_given {
            OutDirSource::Flag
        } else {
            match env_len {
                Some(n) => if n > 0 {
                    OutDirSource::Environment
                } else {
                    OutDirSource::Default
                },
                None => OutDirSource::Default,
            }
        }),
{
    if flag_given {
        OutDirSource::Flag
    } else {
        match env_len {
            Some(n) => if n > 0 {
                OutDirSource::Environment
            } else {
                OutDirSource::Default
            },
            None => OutDirSource::Default,
        }
    }
}

/// The output directory: the one given on the command line, else the
/// environment's when it is set and not empty, else `./ct-traces/`.
pub fn resolve_out_dir(flag: Option<String>, env_value: Option<String>) -> (r: String)
    ensures
        r@ == match flag {
            Some(f) => f@,
            None => match env_value {
                Some(e) => if e@.len() > 0 {
                    e@
                } else {
                    default_out_dir()
                },
                None => default_out_dir(),
            },
        },
{
    let env_len: Option<usize> = match &env_value {
        Some(e) => Some(e.unicode_len()),
        None => None,
    };
    match out_dir_source(flag.is_some(), env_len) {
        OutDirSource::Flag => match flag {
            Some(f) => f,
            None => string_from_chars(&str_chars("./ct-traces/")),
        },
        OutDirSource::Environment => match env_value {
            Some(e) => e,
            None => string_from_chars(&str_chars("./ct-traces/")),
        },
        OutDirSource::Default => string_from_chars(&str_chars("./ct-traces/")),
    }
}

} // verus!

verus! {

// ----- handing the inputs to the witness calculator ------------------------------------

/// Why the inputs cannot be handed to the witness calculator.
#[derive(Debug, Clone, PartialEq, Eq)]
pub enum InputSetError {
    /// A signal is given another number of values than it holds.
    SizeMismatch { signal: String, expected: usize, got: usize },
    /// Fewer values were set than the circuit has inputs.
    NotAllSet { set: usize, total: usize },
}

/// The error's text.
pub open spec fn input_set_error_text(e: InputSetError) -> Seq<char> {
    match e {
        InputSetError::SizeMismatch { signal, expected, got } => "Signal '"@ + signal@ + "' expects "@
            + decimal(expected as nat) + " values, got "@ + decimal(got as nat),
        InputSetError::NotAllSet { set, total } => "Not all inputs set: "@ + decimal(set as nat)
            + " out of "@ + decimal(total as nat),
    }
}

fn push_text(out: &mut Vec<char>, s: &str)
    ensures
        final(out)@ == old(out)@ + s@,
{
    append_chars(out, &str_chars(s));
}

fn push_decimal(out: &mut Vec<char>, n: usize)
    ensures
        final(out)@ == old(out)@ + decimal(n as nat),
{
    append_chars(out, &decimal_exec(n as u64));
}

impl InputSetError {
    /// The error's text.
    pub fn message(&self) -> (r: String)
        ensures
            r@ == input_set_error_text(*self),
    {
        let mut out: Vec<char> = Vec::new();
        match self {
            InputSetError::SizeMismatch { signal, expected, got } => {
                push_text(&mut out, "Signal '");
                push_text(&mut out, signal.as_str());
                push_text(&mut out, "' expects ");
                push_decimal(&mut out, *expected);
                push_text(&mut out, " values, got ");
                push_decimal(&mut out, *got);
                proof {
                    reveal_strlit("Signal '");
                    reveal_strlit("' expects ");
                    reveal_strlit(" values, got ");
                }
            },
            InputSetError::NotAllSet { set, total } => {
                push_text(&mut out, "Not all inputs set: ");
                push_decimal(&mut out, *set);
                push_text(&mut out, " out of ");
                push_decimal(&mut out, *total);
                proof {
                    reveal_strlit("Not all inputs set: ");
                    reveal_strlit(" out of ");
                }
            },
        }
        let r = string_from_chars(&out);
        assert(r@ =~= input_set_error_text(*self));
        r
    }
}

/// A signal takes its values only when it is given exactly as many as the
/// circuit says it holds.
pub fn check_signal_size(signal: &str, expected: usize, got: usize) -> (r: Result<(), InputSetError>)
    ensures
        r is Ok <==> expected == got,
        r matches Err(e) ==> (e matches InputSetError::SizeMismatch { signal: s, expected: x, got: y }
            && s@ == signal@ && x == expected && y == got),
{
    if expected == got {
        Ok(())
    } else {
        Err(InputSetError::SizeMismatch { signal: string_from_chars(&str_chars(signal)), expected, got })
    }
}

/// The witness can be computed only once at least as many values were set
/// as the circuit has inputs.
pub fn check_all_inputs_set(set: usize, total: usize) -> (r: Result<(), InputSetError>)
    ensures
        r is Ok <==> set >= total,
        r matches Err(e) ==> e == (InputSetError::NotAllSet { set, total }),
{
    if set < total {
        Err(InputSetError::NotAllSet { set, total })
    } else {
        Ok(())
    }
}

} // verus!
