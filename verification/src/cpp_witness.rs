//! The compiler's source map (`.srcmap.json` from a circom build with
//! `--srcmap`) and the binary `.wtns` witness format of the C++ witness
//! generator.

use vstd::prelude::*;
use crate::tracer::{inputs_pairs, le_read, le_value};
use crate::value::pairs_map;

verus! {

/// A source map entry.
#[derive(Debug, Clone)]
pub struct SrcMapEntry {
    /// Template name (e.g. `FlowTest`).
    pub template_name: String,
    /// Signal name, where the entry is a signal assignment.
    pub signal_name: Option<String>,
    /// Index into the file table.
    pub file_id: usize,
    /// 1-based source line.
    pub source_line: usize,
    /// 1-based source column.
    pub source_column: usize,
    /// Name of the generated function (WASM / C++).
    pub generated_function: Option<String>,
    /// Statement type (e.g. `substitution`, `constraint`).
    pub statement_type: Option<String>,
}

/// A file of the source map.
#[derive(Debug, Clone)]
pub struct SrcMapFile {
    pub id: usize,
    pub path: String,
}

/// The source map of a compilation.
#[derive(Debug, Clone)]
pub struct CompilerSourceMap {
    /// Format version.
    pub version: u32,
    /// Source files the entries refer to.
    pub files: Vec<SrcMapFile>,
    /// The entries.
    pub mappings: Vec<SrcMapEntry>,
}

pub open spec fn opt_text(o: Option<String>) -> Option<Seq<char>> {
    match o {
        Some(s) => Some(s@),
        None => None,
    }
}

/// Entry `e` is of template `t` and names signal `s`.
pub open spec fn entry_matches(e: SrcMapEntry, t: Seq<char>, s: Seq<char>) -> bool {
    e.template_name@ == t && opt_text(e.signal_name) == Some(s)
}

/// The indices of the entries of template `t` among the first `n`.
pub open spec fn template_entries(m: Seq<SrcMapEntry>, t: Seq<char>, n: int) -> Seq<int>
    decreases n,
{
    if n <= 0 || n > m.len() {
        Seq::empty()
    } else if m[n - 1].template_name@ == t {
        template_entries(m, t, n - 1).push(n - 1)
    } else {
        template_entries(m, t, n - 1)
    }
}

impl CompilerSourceMap {
    /// The first entry for signal `signal_name` of template
    /// `template_name`.
    pub fn find_signal(&self, template_name: &str, signal_name: &str) -> (r: Option<&SrcMapEntry>)
        ensures
            match r {
                Some(e) => exists|i: int|
                    0 <= i < self.mappings@.len() && *e == self.mappings@[i] && entry_matches(
                        self.mappings@[i],
                        template_name@,
                        signal_name@,
                    ) && forall|j: int|
                        0 <= j < i ==> !entry_matches(
                            #[trigger] self.mappings@[j],
                            template_name@,
                            signal_name@,
                        ),
                None => forall|j: int|
                    0 <= j < self.mappings@.len() ==> !entry_matches(
                        #[trigger] self.mappings@[j],
                        template_name@,
                        signal_name@,
                    ),
            },
    {
        let mut i: usize = 0;
        while i < self.mappings.len()
            invariant
                i <= self.mappings@.len(),
                forall|j: int|
                    0 <= j < i ==> !entry_matches(
                        #[trigger] self.mappings@[j],
                        template_name@,
                        signal_name@,
                    ),
            decreases self.mappings.len() - i,
        {
            let e = &self.mappings[i];
            let name_ok = crate::text::same_text(e.template_name.as_str(), template_name);
            let sig_ok = match &e.signal_name {
                Some(s) => crate::text::same_text(s.as_str(), signal_name),
                None => false,
            };
            if name_ok && sig_ok {
                return Some(e);
            }
            i += 1;
        }
        None
    }

    /// The entries of template `template_name`, in order.
    pub fn entries_for_template(&self, template_name: &str) -> (r: Vec<&SrcMapEntry>)
        ensures
            r@.len() == template_entries(
                self.mappings@,
                template_name@,
                self.mappings@.len() as int,
            ).len(),
            forall|k: int|
                0 <= k < r@.len() ==> *r@[k] == self.mappings@[template_entries(
                    self.mappings@,
                    template_name@,
                    self.mappings@.len() as int,
                )[k]],
    {
        let mut out: Vec<&SrcMapEntry> = Vec::new();
        let mut i: usize = 0;
        while i < self.mappings.len()
            invariant
                i <= self.mappings@.len(),
                out@.len() == template_entries(self.mappings@, template_name@, i as int).len(),
                forall|k: int|
                    0 <= k < out@.len() ==> *out@[k] == self.mappings@[template_entries(
                        self.mappings@,
                        template_name@,
                        i as int,
                    )[k]],
            decreases self.mappings.len() - i,
        {
            let e = &self.mappings[i];
            if crate::text::same_text(e.template_name.as_str(), template_name) {
                out.push(e);
            }
            i += 1;
        }
        out
    }

    /// The path of file `file_id`: the first file with that id.
    pub fn file_path(&self, file_id: usize) -> (r: Option<&str>)
        ensures
            match r {
                Some(p) => exists|i: int|
                    0 <= i < self.files@.len() && self.files@[i].id == file_id && p@
                        == self.files@[i].path@ && forall|j: int|
                        0 <= j < i ==> (#[trigger] self.files@[j]).id != file_id,
                None => forall|j: int|
                    0 <= j < self.files@.len() ==> (#[trigger] self.files@[j]).id != file_id,
            },
    {
        let mut i: usize = 0;
        while i < self.files.len()
            invariant
                i <= self.files@.len(),
                forall|j: int| 0 <= j < i ==> (#[trigger] self.files@[j]).id != file_id,
            decreases self.files.len() - i,
        {
            if self.files[i].id == file_id {
                return Some(self.files[i].path.as_str());
            }
            i += 1;
        }
        None
    }
}


// ----- the `.wtns` witness format -------------------------------------------------

/// Why a `.wtns` file was refused.
#[derive(Debug, Clone, Copy, PartialEq, Eq, Structural)]
pub enum WtnsError {
    TooSmall,
    InvalidMagic,
    TruncatedSectionHeader,
    FieldInfoTooSmall,
    FieldInfoTruncated,
    MissingSections,
    WitnessTruncated,
}

/// The text of each error.
pub open spec fn wtns_error_text(e: WtnsError) -> Seq<char> {
    match e {
        WtnsError::TooSmall => ".wtns file too small"@,
        WtnsError::InvalidMagic => ".wtns file has invalid magic"@,
        WtnsError::TruncatedSectionHeader => ".wtns file truncated at section header"@,
        WtnsError::FieldInfoTooSmall => ".wtns field info section too small"@,
        WtnsError::FieldInfoTruncated => ".wtns field info truncated"@,
        WtnsError::MissingSections => ".wtns file missing required sections"@,
        WtnsError::WitnessTruncated => ".wtns witness data truncated"@,
    }
}

impl WtnsError {
    /// The error's text.
    pub fn message(&self) -> (r: String)
        ensures
            r@ == wtns_error_text(*self),
    {
        let s = match self {
            WtnsError::TooSmall => ".wtns file too small",
            WtnsError::InvalidMagic => ".wtns file has invalid magic",
            WtnsError::TruncatedSectionHeader => ".wtns file truncated at section header",
            WtnsError::FieldInfoTooSmall => ".wtns field info section too small",
            WtnsError::FieldInfoTruncated => ".wtns field info truncated",
            WtnsError::MissingSections => ".wtns file missing required sections",
            WtnsError::WitnessTruncated => ".wtns witness data truncated",
        };
        crate::text::string_from_chars(&crate::text::str_chars(s))
    }
}

pub open spec fn le_at(d: Seq<u8>, p: int, n: int) -> int {
    le_value(d.subrange(p, p + n)) as int
}

/// Where the section scan stands: the read position, the field element
/// size, the witness count and where the witness data starts.
pub struct WtnsScan {
    pub pos: int,
    pub n8: int,
    pub count: int,
    pub start: int,
}

/// One section header read from `st.pos`: the state after it, with the
/// position moved past the section.  `None` where reading the file would
/// fail outright (an index past its end or an offset that overflows); an
/// error where the file is refused.
pub open spec fn section_step(d: Seq<u8>, st: WtnsScan) -> Option<Result<WtnsScan, WtnsError>> {
    if st.pos + 12 > usize::MAX {
        None
    } else if st.pos + 12 > d.len() {
        Some(Err(WtnsError::TruncatedSectionHeader))
    } else {
        let ty = le_at(d, st.pos, 4);
        let size = (le_at(d, st.pos + 4, 8) as usize) as int;
        let p = st.pos + 12;
        let found = if ty == 1 {
            if size < 4 {
                Some(Err(WtnsError::FieldInfoTooSmall))
            } else if p + 4 > d.len() {
                None
            } else {
                let n8 = le_at(d, p, 4);
                if p + 4 + n8 + 4 > usize::MAX {
                    None
                } else if p + 4 + n8 + 4 > d.len() {
                    Some(Err(WtnsError::FieldInfoTruncated))
                } else {
                    Some(Ok(WtnsScan { pos: p, n8, count: le_at(d, p + 4 + n8, 4), start: st.start }))
                }
            }
        } else if ty == 2 {
            Some(Ok(WtnsScan { pos: p, n8: st.n8, count: st.count, start: p }))
        } else {
            Some(Ok(WtnsScan { pos: p, n8: st.n8, count: st.count, start: st.start }))
        };
        match found {
            None => None,
            Some(Err(e)) => Some(Err(e)),
            Some(Ok(st2)) => if p + size > usize::MAX {
                None
            } else {
                Some(Ok(WtnsScan { pos: p + size, n8: st2.n8, count: st2.count, start: st2.start }))
            },
        }
    }
}

/// The scan of the remaining `k` section headers.
pub open spec fn scan_sections(d: Seq<u8>, k: nat, st: WtnsScan) -> Option<Result<WtnsScan, WtnsError>>
    decreases k,
{
    if k == 0 {
        Some(Ok(st))
    } else {
        match section_step(d, st) {
            None => None,
            Some(Err(e)) => Some(Err(e)),
            Some(Ok(st2)) => scan_sections(d, (k - 1) as nat, st2),
        }
    }
}

/// The witness values from index `i` on, each `n8` bytes from `wpos`.
pub open spec fn wtns_values(d: Seq<u8>, n8: int, count: int, i: int, wpos: int) -> Option<
    Result<Seq<Seq<u8>>, WtnsError>,
>
    decreases count - i,
{
    if i >= count || i < 0 {
        Some(Ok(Seq::empty()))
    } else if wpos + n8 > usize::MAX {
        None
    } else if wpos + n8 > d.len() {
        Some(Err(WtnsError::WitnessTruncated))
    } else {
        match wtns_values(d, n8, count, i + 1, wpos + n8) {
            None => None,
            Some(Err(e)) => Some(Err(e)),
            Some(Ok(rest)) => Some(Ok(seq![d.subrange(wpos, wpos + n8)] + rest)),
        }
    }
}

/// The witness values of a `.wtns` file as little-endian bytes, or why it
/// is refused; `None` where reading it would fail outright.
/// What follows the section scan: the witness values, or why the file is
/// refused.
pub open spec fn wtns_after(d: Seq<u8>, scanned: Option<Result<WtnsScan, WtnsError>>) -> Option<
    Result<Seq<Seq<u8>>, WtnsError>,
> {
    match scanned {
        None => None,
        Some(Err(e)) => Some(Err(e)),
        Some(Ok(st)) => if st.n8 == 0 || st.count == 0 || st.start == 0 {
            Some(Err(WtnsError::MissingSections))
        } else {
            wtns_values(d, st.n8, st.count, 0, st.start)
        },
    }
}

/// The witness values of a `.wtns` file as little-endian bytes, or why it
/// is refused; `None` where reading it would fail outright.
pub open spec fn wtns(d: Seq<u8>) -> Option<Result<Seq<Seq<u8>>, WtnsError>> {
    if d.len() < 12 {
        Some(Err(WtnsError::TooSmall))
    } else if d.subrange(0, 4) != seq![119u8, 116, 110, 115] {
        Some(Err(WtnsError::InvalidMagic))
    } else {
        wtns_after(
            d,
            scan_sections(d, le_at(d, 8, 4) as nat, WtnsScan { pos: 12, n8: 0, count: 0, start: 0 }),
        )
    }
}

pub open spec fn bytes_views(v: Seq<Vec<u8>>) -> Seq<Seq<u8>> {
    v.map_values(|x: Vec<u8>| x@)
}

fn copy_bytes(d: &[u8], lo: usize, hi: usize) -> (r: Vec<u8>)
    requires
        lo <= hi <= d@.len(),
    ensures
        r@ == d@.subrange(lo as int, hi as int),
{
    let mut r: Vec<u8> = Vec::new();
    let mut i = lo;
    while i < hi
        invariant
            lo <= i <= hi <= d@.len(),
            r@ == d@.subrange(lo as int, i as int),
        decreases hi - i,
    {
        r.push(d[i]);
        assert(r@ =~= d@.subrange(lo as int, i + 1));
        i += 1;
    }
    r
}

/// Reads a `.wtns` witness file: the magic `wtns`, a version, the section
/// count, then sections; section 1 gives the field element size and the
/// witness count, section 2 holds the values.  Gives each value's
/// little-endian bytes, or why the file is refused; `None` where the file
/// points past its own end or past what an offset can count.
pub fn read_wtns(data: &[u8]) -> (r: Option<Result<Vec<Vec<u8>>, WtnsError>>)
    ensures
        match r {
            Some(Ok(v)) => wtns(data@) == Some(Ok::<Seq<Seq<u8>>, WtnsError>(bytes_views(v@))),
            Some(Err(e)) => wtns(data@) == Some(Err::<Seq<Seq<u8>>, WtnsError>(e)),
            None => wtns(data@) is None,
        },
{
    let d = data;
    let n = d.len();
    if n < 12 {
        return Some(Err(WtnsError::TooSmall));
    }
    if !(d[0] == 119 && d[1] == 116 && d[2] == 110 && d[3] == 115) {
        proof {
            if d@.subrange(0, 4) == seq![119u8, 116, 110, 115] {
                assert(d@.subrange(0, 4)[0] == d@[0]);
                assert(d@.subrange(0, 4)[1] == d@[1]);
                assert(d@.subrange(0, 4)[2] == d@[2]);
                assert(d@.subrange(0, 4)[3] == d@[3]);
            }
        }
        return Some(Err(WtnsError::InvalidMagic));
    }
    assert(d@.subrange(0, 4) =~= seq![119u8, 116, 110, 115]);
    let num_sections = le_read(d, 8, 12);
    proof {
        lemma_le4_bound(d@.subrange(8, 12));
    }
    let mut k: u64 = num_sections;
    let mut pos: usize = 12;
    let mut n8: usize = 0;
    let mut count: usize = 0;
    let mut start: usize = 0;
    while k > 0
        invariant
            d@ == data@,
            n == d@.len(),
            wtns(d@) == wtns_after(
                d@,
                scan_sections(
                    d@,
                    k as nat,
                    WtnsScan { pos: pos as int, n8: n8 as int, count: count as int, start: start as int },
                ),
            ),
        decreases k,
    {
        let ghost cur = WtnsScan { pos: pos as int, n8: n8 as int, count: count as int, start: start as int };
        assert(wtns(d@) == wtns_after(
            d@,
            match section_step(d@, cur) {
                None => None,
                Some(Err(e)) => Some(Err(e)),
                Some(Ok(st2)) => scan_sections(d@, (k - 1) as nat, st2),
            },
        ));
        if pos > usize::MAX - 12 {
            return None;
        }
        if pos > n || n - pos < 12 {
            assert(section_step(d@, cur) == Some(Err::<WtnsScan, WtnsError>(WtnsError::TruncatedSectionHeader)));
            return Some(Err(WtnsError::TruncatedSectionHeader));
        }
        let ty = le_read(d, pos, pos + 4);
        let size_raw = le_read(d, pos + 4, pos + 12);
        let size = #[verifier::truncate] (size_raw as usize);
        let p = pos + 12;
        if ty == 1 {
            if size < 4 {
                assert(section_step(d@, cur) == Some(Err::<WtnsScan, WtnsError>(WtnsError::FieldInfoTooSmall)));
                return Some(Err(WtnsError::FieldInfoTooSmall));
            }
            if p > n || n - p < 4 {
                return None;
            }
            let m8 = le_read(d, p, p + 4);
            proof {
                lemma_le4_bound(d@.subrange(p as int, p + 4));
            }
            if p > usize::MAX - 8 || (m8 as usize) > usize::MAX - p - 8 {
                return None;
            }
            if (m8 as usize) > n - p - 4 || n - p - 4 - (m8 as usize) < 4 {
                return Some(Err(WtnsError::FieldInfoTruncated));
            }
            n8 = m8 as usize;
            let c = le_read(d, p + 4 + n8, p + 4 + n8 + 4);
            proof {
                lemma_le4_bound(d@.subrange(p + 4 + n8, p + 4 + n8 + 4));
            }
            count = c as usize;
        } else if ty == 2 {
            start = p;
        }
        if size > usize::MAX - p {
            return None;
        }
        pos = p + size;
        k -= 1;
    }
    if n8 == 0 || count == 0 || start == 0 {
        return Some(Err(WtnsError::MissingSections));
    }
    let mut out: Vec<Vec<u8>> = Vec::new();
    let mut i: usize = 0;
    let mut wpos = start;
    assert(bytes_views(out@) =~= Seq::<Seq<u8>>::empty());
    while i < count
        invariant
            d@ == data@,
            n == d@.len(),
            i <= count,
            wtns(d@) == match wtns_values(d@, n8 as int, count as int, i as int, wpos as int) {
                None => None,
                Some(Err(e)) => Some(Err(e)),
                Some(Ok(rest)) => Some(Ok::<Seq<Seq<u8>>, WtnsError>(bytes_views(out@) + rest)),
            },
        decreases count - i,
    {
        if n8 > usize::MAX - wpos {
            return None;
        }
        if wpos > n || n - wpos < n8 {
            assert(wtns_values(d@, n8 as int, count as int, i as int, wpos as int) == Some(
                Err::<Seq<Seq<u8>>, WtnsError>(WtnsError::WitnessTruncated),
            ));
            return Some(Err(WtnsError::WitnessTruncated));
        }
        let v = copy_bytes(d, wpos, wpos + n8);
        let ghost prev = out@;
        out.push(v);
        proof {
            assert(bytes_views(out@) =~= bytes_views(prev).push(d@.subrange(wpos as int, wpos + n8)));
            let rest = wtns_values(d@, n8 as int, count as int, i + 1, wpos + n8);
            match rest {
                Some(Ok(r)) => {
                    assert(bytes_views(prev) + (seq![d@.subrange(wpos as int, wpos + n8)] + r) =~= bytes_views(out@) + r);
                },
                _ => {},
            }
        }
        wpos = wpos + n8;
        i += 1;
    }
    proof {
        assert(bytes_views(out@) + Seq::<Seq<u8>>::empty() =~= bytes_views(out@));
    }
    Some(Ok(out))
}

/// Parses a `.wtns` witness file that points nowhere past its own end (see
/// `read_wtns`): each value's little-endian bytes, or why it is refused.
pub fn parse_wtns(data: &[u8]) -> (r: Result<Vec<Vec<u8>>, WtnsError>)
    requires
        wtns(data@) is Some,
    ensures
        match r {
            Ok(v) => wtns(data@) == Some(Ok::<Seq<Seq<u8>>, WtnsError>(bytes_views(v@))),
            Err(e) => wtns(data@) == Some(Err::<Seq<Seq<u8>>, WtnsError>(e)),
        },
{
    match read_wtns(data) {
        Some(r) => r,
        None => Err(WtnsError::TooSmall),
    }
}

proof fn lemma_le4_bound(s: Seq<u8>)
    requires
        s.len() == 4,
    ensures
        le_value(s) < 0x1_0000_0000,
{
    crate::tracer::lemma_le_bound(s);
    reveal_with_fuel(crate::tracer::pow256, 5);
}

} // verus!

verus! {

// ----- the witness generator's input file ------------------------------------------------

#[verifier::external_type_specification]
#[verifier::external_body]
pub struct ExJsonError(serde_json::Error);

/// What `serde_json::to_string_pretty` gives for a JSON object whose
/// entries, each a name and its list of strings, come in the order
/// `entries`.
pub uninterp spec fn pretty_json_object(entries: Seq<(Seq<char>, Seq<Seq<char>>)>) -> Seq<char>;

/// `entries` lists each entry of `m` exactly once, in some order.
pub open spec fn lists_entries(
    entries: Seq<(Seq<char>, Seq<Seq<char>>)>,
    m: Map<Seq<char>, Seq<Seq<char>>>,
) -> bool {
    &&& forall|i: int, j: int|
        0 <= i < j < entries.len() ==> (#[trigger] entries[i]).0 != (#[trigger] entries[j]).0
    &&& forall|i: int|
        0 <= i < entries.len() ==> m.contains_key((#[trigger] entries[i]).0) && m[entries[i].0]
            == entries[i].1
    &&& forall|k: Seq<char>|
        #[trigger] m.contains_key(k) ==> exists|i: int| 0 <= i < entries.len() && (#[trigger] entries[i]).0 == k
}

/// `t` is the pretty JSON object of the entries of `m`, in some order.
pub open spec fn pretty_json_of_some_order(t: Seq<char>, m: Map<Seq<char>, Seq<Seq<char>>>) -> bool {
    exists|p: Seq<(Seq<char>, Seq<Seq<char>>)>|
        lists_entries(p, m) && t == #[trigger] pretty_json_object(p)
}

/// Calls `serde_json::to_string_pretty` on the inputs gathered into a
/// `HashMap` from signal name to values, where a later pair of a name
/// replaces an earlier one.  Its documentation says it fails only where a
/// `Serialize` impl fails or a map key is not a string; with `&str` keys
/// and lists of strings as values it succeeds.  The map is written as an
/// object with one entry per key, in the order of the map's walk, which
/// each process seeds anew: the contract says the text is the pretty form
/// of the map's entries in some order, and not which.
#[verifier::external_body]
fn pretty_input_json(inputs: &Vec<(String, Vec<String>)>) -> (r: Result<String, serde_json::Error>)
    ensures
        r is Ok,
        r matches Ok(t) ==> exists|p: Seq<(Seq<char>, Seq<Seq<char>>)>|
            lists_entries(p, pairs_map(inputs_pairs(inputs@))) && t@ == #[trigger] pretty_json_object(p),
{
    let map: std::collections::HashMap<&str, &Vec<String>> = inputs.iter().map(|(k, v)| (k.as_str(), v)).collect();
    serde_json::to_string_pretty(&map)
}

/// The witness generator's input JSON: an object with one entry for each
/// signal name (the last pair of a name wins) holding its list of decimal
/// values, pretty-printed.  The order of the entries is that of a
/// `HashMap` walk, and is left open.
pub fn input_json_text(inputs: &Vec<(String, Vec<String>)>) -> (r: Option<String>)
    ensures
        r matches Some(t) && pretty_json_of_some_order(t@, pairs_map(inputs_pairs(inputs@))),
{
    match pretty_input_json(inputs) {
        Ok(text) => Some(text),
        Err(_) => None,
    }
}

} // verus!

verus! {

// ----- a well-formed witness file gives back its values ------------------------------------

proof fn lemma_wtns_values_layout(d: Seq<u8>, n8: int, count: int, start: int, i: int)
    requires
        1 <= n8,
        0 <= i <= count,
        0 <= start,
        start + count * n8 <= d.len() <= usize::MAX,
    ensures
        wtns_values(d, n8, count, i, start + i * n8) matches Some(Ok(vs)) && vs.len() == count - i
            && forall|j: int|
            0 <= j < count - i ==> #[trigger] vs[j] == d.subrange(
                start + (i + j) * n8,
                start + (i + j + 1) * n8,
            ),
    decreases count - i,
{
    if i < count {
        assert(start + (i + 1) * n8 <= start + count * n8) by (nonlinear_arith)
            requires
                i + 1 <= count,
                1 <= n8,
        ;
        assert(start + i * n8 + n8 == start + (i + 1) * n8) by (nonlinear_arith);
        lemma_wtns_values_layout(d, n8, count, start, i + 1);
        let rest = wtns_values(d, n8, count, i + 1, start + (i + 1) * n8)->Some_0->Ok_0;
        let vs = seq![d.subrange(start + i * n8, start + i * n8 + n8)] + rest;
        assert forall|j: int| 0 <= j < count - i implies #[trigger] vs[j] == d.subrange(
            start + (i + j) * n8,
            start + (i + j + 1) * n8,
        ) by {
            if j == 0 {
                assert(start + (i + 1) * n8 == start + (i + 0 + 1) * n8);
            } else {
                assert(vs[j] == rest[j - 1]);
                assert(i + 1 + (j - 1) == i + j);
            }
        }
    }
}

/// A well-formed `.wtns` file gives back exactly the values it holds: with
/// the magic `wtns`, two sections, a field-info section (type 1, size
/// `8 + n8`) holding `n8`, an `n8`-byte prime and the witness count `count`
/// after it, and a witness section (type 2) holding `count` values of `n8`
/// bytes each, the reading gives `count` values, value `i` being the `n8`
/// bytes at its place in the witness section.
pub proof fn lemma_wtns_layout(d: Seq<u8>, n8: int, count: int)
    requires
        d.len() <= usize::MAX,
        1 <= n8,
        1 <= count,
        d.len() == 44 + n8 + n8 * count,
        d.subrange(0, 4) == seq![119u8, 116, 110, 115],
        le_at(d, 8, 4) == 2,
        le_at(d, 12, 4) == 1,
        le_at(d, 16, 8) == 8 + n8,
        le_at(d, 24, 4) == n8,
        le_at(d, 28 + n8, 4) == count,
        le_at(d, 32 + n8, 4) == 2,
        le_at(d, 36 + n8, 8) == n8 * count,
    ensures
        wtns(d) matches Some(Ok(vs)) && vs.len() == count && forall|i: int|
            0 <= i < count ==> #[trigger] vs[i] == d.subrange(44 + n8 + i * n8, 44 + n8 + (i + 1) * n8),
{
    assert(n8 * count >= 1) by (nonlinear_arith)
        requires
            1 <= n8,
            1 <= count,
    ;
    assert(n8 * count == count * n8) by (nonlinear_arith);
    let st0 = WtnsScan { pos: 12, n8: 0, count: 0, start: 0 };
    let st1 = WtnsScan { pos: 32 + n8, n8, count, start: 0 };
    let st2 = WtnsScan { pos: d.len() as int, n8, count, start: 44 + n8 };
    assert(section_step(d, st0) == Some(Ok::<WtnsScan, WtnsError>(st1)));
    assert(section_step(d, st1) == Some(Ok::<WtnsScan, WtnsError>(st2)));
    assert(le_at(d, 8, 4) as nat == 2);
    assert(scan_sections(d, 0, st2) == Some(Ok::<WtnsScan, WtnsError>(st2)));
    assert(scan_sections(d, 1, st1) == Some(Ok::<WtnsScan, WtnsError>(st2)));
    assert(scan_sections(d, 2, st0) == Some(Ok::<WtnsScan, WtnsError>(st2)));
    lemma_wtns_values_layout(d, n8, count, 44 + n8, 0);
    assert(44 + n8 + 0 * n8 == 44 + n8);
    let vs = wtns_values(d, n8, count, 0, 44 + n8)->Some_0->Ok_0;
    assert forall|i: int| 0 <= i < count implies #[trigger] vs[i] == d.subrange(
        44 + n8 + i * n8,
        44 + n8 + (i + 1) * n8,
    ) by {
        assert(0 + i == i);
        assert(0 + i + 1 == i + 1);
    }
}

} // verus!
