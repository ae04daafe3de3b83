//! Signal hierarchy support for complex Circom circuits.
//!
//! Circom `.sym` files produce signal names like `main.adder.out` or
//! `main.values[0]`.  This module parses these dotted, possibly
//! array-indexed signal paths and groups signals by the component that
//! declares them.

use vstd::prelude::*;
use crate::text::{
    append_chars, copy_range, decimal, decimal_exec, find_char, find_char_exec, join, lemma_split_on_nonempty, str_eq_chars, chars_eq,
    lemma_find_char_props, parse_usize, parse_usize_exec, split_on, split_on_exec, str_chars,
    string_from_chars, trim_end_char, trim_end_char_exec, views,
};

verus! {

/// A single component in a signal path, e.g. `"adder"` or `"values[2]"`.
#[derive(Debug, Clone, PartialEq, Eq, Hash)]
pub struct PathComponent {
    /// The base name without any array index (e.g. `"values"`).
    pub name: String,
    /// Optional array index (e.g. `Some(2)` for `"values[2]"`).
    pub index: Option<usize>,
}

impl View for PathComponent {
    type V = (Seq<char>, Option<usize>);

    open spec fn view(&self) -> (Seq<char>, Option<usize>) {
        (self.name@, self.index)
    }
}

/// A parsed hierarchical signal path.
///
/// For example, `"main.adder.out"` becomes `["main", "adder", "out"]`
/// and `"main.values[0]"` becomes `["main", "values[0]"]`.
#[derive(Debug, Clone, PartialEq, Eq)]
pub struct SignalPath {
    /// The components of the path, from root to leaf.
    pub components: Vec<PathComponent>,
}

impl View for SignalPath {
    type V = Seq<(Seq<char>, Option<usize>)>;

    open spec fn view(&self) -> Seq<(Seq<char>, Option<usize>)> {
        self.components@.map_values(|c: PathComponent| c@)
    }
}

/// One dotted segment read as a name and an optional `[index]`: the name is
/// what stands before the first `[`; the index is what follows it, with
/// trailing `]` removed, read as a `usize` (absent when that fails).
pub open spec fn parse_component(s: Seq<char>) -> (Seq<char>, Option<usize>) {
    match find_char(s, '[') {
        Some(p) => (s.take(p), parse_usize(trim_end_char(s.skip(p + 1), ']'))),
        None => (s, None),
    }
}

/// The components of a dotted signal name.
pub open spec fn parse_path(s: Seq<char>) -> Seq<(Seq<char>, Option<usize>)> {
    split_on(s, '.').map_values(|p: Seq<char>| parse_component(p))
}

/// How a component is printed: its name, then `[index]` when it has one.
pub open spec fn display_component(c: (Seq<char>, Option<usize>)) -> Seq<char> {
    match c.1 {
        Some(i) => c.0 + seq!['['] + decimal(i as nat) + seq![']'],
        None => c.0,
    }
}

/// The dotted form of a list of components.
pub open spec fn path_full_name(p: Seq<(Seq<char>, Option<usize>)>) -> Seq<char> {
    join(p.map_values(|c: (Seq<char>, Option<usize>)| display_component(c)), '.')
}

/// A component name that prints and reads back unchanged: it holds
/// neither `.` nor `[`.
pub open spec fn plain_name(n: Seq<char>) -> bool {
    !n.contains('.') && !n.contains('[')
}

proof fn lemma_component_round_trip(c: (Seq<char>, Option<usize>))
    requires
        plain_name(c.0),
    ensures
        parse_component(display_component(c)) == c,
        !display_component(c).contains('.'),
{
    let d = display_component(c);
    match c.1 {
        None => {
            crate::text::lemma_find_char_props(d, '[');
            if find_char(d, '[') is Some {
                assert(d.contains('['));
            }
        },
        Some(i) => {
            let dec = decimal(i as nat);
            crate::text::lemma_decimal_digits(i as nat);
            let n = c.0.len();
            assert(d == c.0 + seq!['['] + dec + seq![']']);
            assert forall|k: int| 0 <= k < n implies #[trigger] d[k] != '[' by {
                assert(d[k] == c.0[k]);
                if c.0[k] == '[' {
                    assert(c.0.contains('['));
                }
            }
            assert(d[n as int] == '[');
            crate::text::lemma_find_char_props(d, '[');
            assert(find_char(d, '[') == Some(n as int)) by {
                match find_char(d, '[') {
                    Some(p) => {
                        if p < n {
                        } else if p > n {
                            assert(d[n as int] != '[');
                        }
                    },
                    None => {
                        assert(d[n as int] != '[');
                    },
                }
            }
            assert(d.take(n as int) =~= c.0);
            let after = d.skip(n as int + 1);
            assert(after =~= dec + seq![']']);
            let j = dec.len() as int;
            assert forall|k: int| j <= k < after.len() implies #[trigger] after[k] == ']' by {}
            assert(after[j - 1] != ']') by {
                assert(after[j - 1] == dec[j - 1]);
                assert(crate::text::is_digit(dec[j - 1]));
            }
            crate::text::lemma_trim_end_char_take(after, ']', j);
            assert(after.take(j) =~= dec);
            assert(dec[0] != '+') by {
                assert(crate::text::is_digit(dec[0]));
            }
        },
    }
    assert(!d.contains('.')) by {
        if d.contains('.') {
            let q = choose|q: int| 0 <= q < d.len() && d[q] == '.';
            match c.1 {
                None => {
                    assert(c.0.contains('.'));
                },
                Some(i) => {
                    let dec = decimal(i as nat);
                    crate::text::lemma_decimal_digits(i as nat);
                    let n = c.0.len() as int;
                    if q < n {
                        assert(d[q] == c.0[q]);
                        assert(c.0.contains('.'));
                    } else if q > n && q < n + 1 + dec.len() {
                        assert(d[q] == dec[q - n - 1]);
                        assert(crate::text::is_digit(dec[q - n - 1]));
                    }
                },
            }
        }
    }
}

/// Reading back the dotted form of a path gives the path: `parse` undoes
/// `full_name` for a nonempty path whose component names hold neither `.`
/// nor `[`.
pub proof fn lemma_full_name_parses_back(p: Seq<(Seq<char>, Option<usize>)>)
    requires
        p.len() > 0,
        forall|k: int| 0 <= k < p.len() ==> plain_name(#[trigger] p[k].0),
    ensures
        parse_path(path_full_name(p)) == p,
{
    let parts = p.map_values(|c: (Seq<char>, Option<usize>)| display_component(c));
    assert forall|k: int| 0 <= k < parts.len() implies !(#[trigger] parts[k]).contains('.') by {
        lemma_component_round_trip(p[k]);
    }
    crate::text::lemma_split_join(parts, '.');
    assert forall|k: int| 0 <= k < p.len() implies #[trigger] parse_component(parts[k]) == p[k] by {
        lemma_component_round_trip(p[k]);
    }
    assert(parse_path(path_full_name(p)) =~= p);
}

/// A dotted segment that prints back as it is read: it holds no `[`, or it
/// is a name without `[` followed by an index, in plain decimal, in
/// brackets.
pub open spec fn canonical_part(part: Seq<char>) -> bool {
    !part.contains('[') || exists|b: Seq<char>, n: usize|
        !b.contains('[') && part == #[trigger] display_component((b, Some(n)))
}

/// Printing a parsed name gives the name back: `full_name` undoes `parse`
/// for a name whose dotted segments are all canonical (such as
/// `main.values[0]` or `main.adder.out`).
pub proof fn lemma_parse_prints_back(name: Seq<char>)
    requires
        forall|k: int|
            0 <= k < split_on(name, '.').len() ==> canonical_part(#[trigger] split_on(name, '.')[k]),
    ensures
        path_full_name(parse_path(name)) == name,
{
    let parts = split_on(name, '.');
    crate::text::lemma_join_split(name, '.');
    let printed = parse_path(name).map_values(|c: (Seq<char>, Option<usize>)| display_component(c));
    assert forall|k: int| 0 <= k < parts.len() implies #[trigger] printed[k] == parts[k] by {
        lemma_canonical_part(parts[k]);
    }
    assert(printed =~= parts);
}

/// Parse a single path component like `"values[2]"` into name + optional index.
fn parse_path_component(s: &[char]) -> (r: PathComponent)
    ensures
        r@ == parse_component(s@),
{
    match find_char_exec(s, '[') {
        Some(p) => {
            proof {
                lemma_find_char_props(s@, '[');
            }
            assert(p < s.len());
            let name = string_from_chars(&copy_range(s, 0, p));
            let rest = copy_range(s, p + 1, s.len());
            let idx = parse_usize_exec(&trim_end_char_exec(&rest, ']'));
            assert(s@.subrange(0, p as int) =~= s@.take(p as int));
            assert(s@.subrange(p + 1, s@.len() as int) =~= s@.skip(p + 1));
            PathComponent { name, index: idx }
        },
        None => PathComponent { name: string_from_chars(s), index: None },
    }
}

impl PathComponent {
    /// The printed form: the name, then `[index]` when there is one.
    pub fn to_string(&self) -> (r: String)
        ensures
            r@ == display_component(self@),
    {
        let mut out = str_chars(self.name.as_str());
        match self.index {
            Some(i) => {
                out.push('[');
                append_chars(&mut out, &decimal_exec(i as u64));
                out.push(']');
            },
            None => {},
        }
        string_from_chars(&out)
    }

    /// A copy equal to `self`.
    pub fn duplicate(&self) -> (r: PathComponent)
        ensures
            r == *self,
    {
        PathComponent { name: self.name.clone(), index: self.index }
    }
}

impl SignalPath {
    /// Parse a dotted signal name into a `SignalPath`.
    ///
    /// Examples:
    /// - `"main.out"` -> components: `[main, out]`
    /// - `"main.adder.out"` -> components: `[main, adder, out]`
    /// - `"main.values[0]"` -> components: `[main, values[0]]`
    /// - `"main.comp.arr[3]"` -> components: `[main, comp, arr[3]]`
    pub fn parse(name: &str) -> (r: SignalPath)
        ensures
            r@ == parse_path(name@),
    {
        let chars = str_chars(name);
        let parts = split_on_exec(&chars, '.');
        let mut components: Vec<PathComponent> = Vec::new();
        let mut i: usize = 0;
        while i < parts.len()
            invariant
                i <= parts@.len(),
                views(parts@) == split_on(name@, '.'),
                components@.len() == i,
                forall|k: int|
                    0 <= k < i ==> #[trigger] components@[k]@ == parse_component(parts@[k]@),
            decreases parts.len() - i,
        {
            components.push(parse_path_component(&parts[i]));
            i += 1;
        }
        let r = SignalPath { components };
        assert(r@ =~= parse_path(name@)) by {
            assert forall|k: int| 0 <= k < r@.len() implies r@[k] == parse_path(name@)[k] by {
                assert(views(parts@)[k] == parts@[k]@);
            }
        }
        r
    }

    /// The depth of the path (number of components).
    pub fn depth(&self) -> (r: usize)
        ensures
            r == self@.len(),
    {
        self.components.len()
    }

    /// The leaf (last) component name, without array index.
    pub fn leaf_name(&self) -> (r: &str)
        ensures
            r@ == (if self@.len() == 0 {
                Seq::<char>::empty()
            } else {
                self@.last().0
            }),
    {
        let n = self.components.len();
        if n == 0 {
            proof {
                reveal_strlit("");
            }
            ""
        } else {
            self.components[n - 1].name.as_str()
        }
    }

    /// The leaf component's array index, if any.
    pub fn leaf_index(&self) -> (r: Option<usize>)
        ensures
            r == (if self@.len() == 0 {
                None
            } else {
                self@.last().1
            }),
    {
        let n = self.components.len();
        if n == 0 {
            None
        } else {
            self.components[n - 1].index
        }
    }

    /// Return the parent path (all components except the last).
    /// Returns `None` if the path has only one component.
    pub fn parent(&self) -> (r: Option<SignalPath>)
        ensures
            self@.len() <= 1 ==> r is None,
            self@.len() > 1 ==> (r matches Some(p) && p@ == self@.drop_last()),
    {
        let n = self.components.len();
        if n <= 1 {
            return None;
        }
        let mut components: Vec<PathComponent> = Vec::new();
        let mut i: usize = 0;
        while i < n - 1
            invariant
                n == self.components@.len(),
                n > 1,
                i <= n - 1,
                components@.len() == i,
                forall|k: int| 0 <= k < i ==> #[trigger] components@[k] == self.components@[k],
            decreases n - 1 - i,
        {
            components.push(self.components[i].duplicate());
            i += 1;
        }
        let p = SignalPath { components };
        assert(p@ =~= self@.drop_last());
        Some(p)
    }

    /// The full dotted string representation.
    pub fn full_name(&self) -> (r: String)
        ensures
            r@ == path_full_name(self@),
    {
        let n = self.components.len();
        let mut out: Vec<char> = Vec::new();
        let ghost parts = self@.map_values(|c: (Seq<char>, Option<usize>)| display_component(c));
        let mut i: usize = 0;
        while i < n
            invariant
                n == self.components@.len(),
                parts == self@.map_values(|c: (Seq<char>, Option<usize>)| display_component(c)),
                i <= n,
                out@ == join(parts.take(i as int), '.'),
            decreases n - i,
        {
            let piece = self.components[i].to_string();
            let pc = str_chars(piece.as_str());
            assert(parts.take(i + 1).drop_last() =~= parts.take(i as int));
            assert(parts.take(i + 1).last() == pc@);
            if i > 0 {
                out.push('.');
                append_chars(&mut out, &pc);
            } else {
                append_chars(&mut out, &pc);
                assert(join(parts.take(1), '.') == parts.take(1)[0]);
            }
            i += 1;
        }
        assert(parts.take(n as int) =~= parts);
        string_from_chars(&out)
    }

    /// Return the component path (all components except "main" prefix and the leaf signal).
    /// For `main.adder.out` this returns `["adder"]`.
    /// For `main.out` this returns `[]`.
    pub fn component_path(&self) -> (r: Vec<&PathComponent>)
        ensures
            self@.len() <= 2 ==> r@.len() == 0,
            self@.len() > 2 ==> r@.len() == self@.len() - 2 && forall|k: int|
                0 <= k < r@.len() ==> (#[trigger] r@[k])@ == self@[k + 1],
    {
        let n = self.components.len();
        let mut r: Vec<&PathComponent> = Vec::new();
        if n <= 2 {
            return r;
        }
        let mut i: usize = 1;
        while i < n - 1
            invariant
                n == self.components@.len(),
                n > 2,
                1 <= i <= n - 1,
                r@.len() == i - 1,
                forall|k: int| 0 <= k < r@.len() ==> (#[trigger] r@[k])@ == self@[k + 1],
            decreases n - 1 - i,
        {
            r.push(&self.components[i]);
            i += 1;
        }
        r
    }
}

} // verus!

verus! {

// ----- how a flat signal name places a signal in the hierarchy ---------------

/// The name of the root component.
pub open spec fn main_name() -> Seq<char> {
    seq!['m', 'a', 'i', 'n']
}

/// Index of the first component below the root: a leading `main` is the
/// root itself.
pub open spec fn path_start(c: Seq<(Seq<char>, Option<usize>)>) -> int {
    if c.len() > 0 && c[0].0 == main_name() {
        1
    } else {
        0
    }
}

/// Whether a signal name names a signal at all (it has a leaf below `main`).
pub open spec fn sig_valid(name: Seq<char>) -> bool {
    path_start(parse_path(name)) < parse_path(name).len()
}

/// Names of the components that hold the signal, from below the root to its
/// direct parent (indices dropped).
pub open spec fn sig_container(name: Seq<char>) -> Seq<Seq<char>> {
    let c = parse_path(name);
    c.subrange(path_start(c), c.len() - 1).map_values(|x: (Seq<char>, Option<usize>)| x.0)
}

/// The label under which the signal is kept: its printed leaf component.
pub open spec fn sig_label(name: Seq<char>) -> Seq<char> {
    display_component(parse_path(name).last())
}

/// The signals of `inp`, in order, that sit directly in the component at
/// `p`, as `(label, value)`.
pub open spec fn signals_at(inp: Seq<(String, i64)>, p: Seq<Seq<char>>) -> Seq<(Seq<char>, i64)>
    decreases inp.len(),
{
    if inp.len() == 0 {
        Seq::empty()
    } else {
        let rest = signals_at(inp.drop_last(), p);
        let e = inp.last();
        if sig_valid(e.0@) && sig_container(e.0@) == p {
            rest.push((sig_label(e.0@), e.1))
        } else {
            rest
        }
    }
}

/// Every signal put in is found again: a signal with a valid name sits,
/// under its label and with its value, among the signals of the component
/// that its container path names.
pub proof fn lemma_signal_found(inp: Seq<(String, i64)>, i: int)
    requires
        0 <= i < inp.len(),
        sig_valid(inp[i].0@),
    ensures
        signals_at(inp, sig_container(inp[i].0@)).contains((sig_label(inp[i].0@), inp[i].1)),
    decreases inp.len(),
{
    let p = sig_container(inp[i].0@);
    let x = (sig_label(inp[i].0@), inp[i].1);
    let rest = signals_at(inp.drop_last(), p);
    if i == inp.len() - 1 {
        assert(signals_at(inp, p) == rest.push(x));
        assert(rest.push(x)[rest.len() as int] == x);
    } else {
        assert(inp.drop_last()[i] == inp[i]);
        lemma_signal_found(inp.drop_last(), i);
        let q = choose|q: int| 0 <= q < rest.len() && rest[q] == x;
        assert(signals_at(inp, p)[q] == x);
    }
}

/// Whether `p` is a nonempty leading part of the container path of some
/// signal of `inp`.
pub open spec fn is_component_of(inp: Seq<(String, i64)>, p: Seq<Seq<char>>) -> bool {
    exists|j: int|
        0 <= j < inp.len() && sig_valid(#[trigger] inp[j].0@) && 1 <= p.len() <= sig_container(
            inp[j].0@,
        ).len() && p == sig_container(inp[j].0@).take(p.len() as int)
}

/// The path a query addresses: a leading `main` names the root.
pub open spec fn query_path(q: Seq<Seq<char>>) -> Seq<Seq<char>> {
    if q.len() > 0 && q[0] == main_name() {
        q.drop_first()
    } else {
        q
    }
}

// ----- the hierarchy ---------------------------------------------------------

/// A node in the signal hierarchy: one component.
#[derive(Debug, Clone)]
pub struct HierarchyNode {
    /// The component name at this level.
    pub name: String,
    /// Names of the components from below the root down to this one (empty
    /// for the root).
    pub path: Vec<String>,
    /// Signals directly in this component (leaf name -> value).
    pub signals: Vec<(String, i64)>,
}

impl View for HierarchyNode {
    type V = (Seq<char>, Seq<Seq<char>>, Seq<(Seq<char>, i64)>);

    /// The node's name, its path and its signals.
    open spec fn view(&self) -> (Seq<char>, Seq<Seq<char>>, Seq<(Seq<char>, i64)>) {
        (self.name@, self.path_view(), self.signals_view())
    }
}

impl HierarchyNode {
    pub open spec fn path_view(&self) -> Seq<Seq<char>> {
        self.path@.map_values(|s: String| s@)
    }

    pub open spec fn signals_view(&self) -> Seq<(Seq<char>, i64)> {
        self.signals@.map_values(|e: (String, i64)| (e.0@, e.1))
    }
}

/// A hierarchical grouping of signals by component.
///
/// Built from a flat list of `(signal_name, value)` pairs where signal names
/// use dotted notation (e.g. `"main.adder.out"`).  The first node is the
/// root (`main`); every other node's parent is also present.  The tree is
/// held as a list of nodes, each carrying its path from the root, so that a
/// component is found by comparing paths.
#[derive(Debug)]
pub struct SignalHierarchy {
    nodes: Vec<HierarchyNode>,
}

/// The signals of the node at path `p`, or none.
pub open spec fn nodes_signals_of(nodes: Seq<HierarchyNode>, p: Seq<Seq<char>>) -> Seq<(Seq<char>, i64)> {
    if exists|i: int| 0 <= i < nodes.len() && (#[trigger] nodes[i]).path_view() == p {
        nodes[choose|i: int| 0 <= i < nodes.len() && (#[trigger] nodes[i]).path_view() == p].signals_view()
    } else {
        Seq::empty()
    }
}

#[verifier::opaque]
pub open spec fn nodes_wf(nodes: Seq<HierarchyNode>) -> bool {
    &&& nodes.len() >= 1
    &&& nodes[0].path_view().len() == 0
    &&& nodes[0].name@ == main_name()
    &&& forall|i: int|
        0 < i < nodes.len() ==> (#[trigger] nodes[i]).path_view().len() > 0 && nodes[i].name@
            == nodes[i].path_view().last()
    &&& forall|i: int, j: int|
        0 <= i < nodes.len() && 0 <= j < nodes.len() && i != j ==> (#[trigger] nodes[i]).path_view()
            != (#[trigger] nodes[j]).path_view()
    &&& forall|i: int|
        0 < i < nodes.len() ==> exists|j: int|
            0 <= j < nodes.len() && (#[trigger] nodes[j]).path_view() == (
            #[trigger] nodes[i]).path_view().drop_last()
}

impl SignalHierarchy {
    #[verifier::type_invariant]
    spec fn well_formed(self) -> bool {
        nodes_wf(self.nodes@)
    }

    /// The hierarchy is well formed: a root, a node for the parent of every
    /// other node, and no path twice.
    pub closed spec fn valid(self) -> bool {
        nodes_wf(self.nodes@)
    }

    /// The paths of the nodes, in creation order.
    pub closed spec fn paths(self) -> Seq<Seq<Seq<char>>> {
        self.nodes@.map_values(|n: HierarchyNode| n.path_view())
    }

    /// Whether the hierarchy has a component at path `p`.
    pub closed spec fn has_node(self, p: Seq<Seq<char>>) -> bool {
        exists|i: int| 0 <= i < self.nodes@.len() && (#[trigger] self.nodes@[i]).path_view() == p
    }

    /// The signals of the component at `p` (empty where there is none).
    pub closed spec fn signals_of(self, p: Seq<Seq<char>>) -> Seq<(Seq<char>, i64)> {
        nodes_signals_of(self.nodes@, p)
    }
}

} // verus!

verus! {

/// The character views of a list of string slices.
pub open spec fn str_views(p: Seq<&str>) -> Seq<Seq<char>> {
    p.map_values(|s: &str| s@)
}

/// The views of a list of `(name, value)` pairs.
pub open spec fn pair_views(v: Seq<(String, i64)>) -> Seq<(Seq<char>, i64)> {
    v.map_values(|e: (String, i64)| (e.0@, e.1))
}

fn clone_pairs(v: &Vec<(String, i64)>) -> (r: Vec<(String, i64)>)
    ensures
        r@ == v@,
{
    let mut r: Vec<(String, i64)> = Vec::new();
    let mut i: usize = 0;
    while i < v.len()
        invariant
            i <= v@.len(),
            r@ == v@.take(i as int),
        decreases v.len() - i,
    {
        let e = (v[i].0.clone(), v[i].1);
        r.push(e);
        assert(r@ =~= v@.take(i + 1));
        i += 1;
    }
    assert(v@.take(v@.len() as int) =~= v@);
    r
}

/// Whether a node's path equals `q[..k]`.
fn path_is(node_path: &Vec<String>, q: &Vec<Vec<char>>, k: usize) -> (r: bool)
    requires
        k <= q@.len(),
    ensures
        r == (node_path@.map_values(|s: String| s@) == views(q@).take(k as int)),
{
    let ghost np = node_path@.map_values(|s: String| s@);
    let ghost qv = views(q@).take(k as int);
    if node_path.len() != k {
        assert(np.len() == node_path@.len());
        assert(qv.len() == k);
        return false;
    }
    let mut i: usize = 0;
    while i < k
        invariant
            i <= k <= q@.len(),
            node_path@.len() == k,
            np == node_path@.map_values(|s: String| s@),
            qv == views(q@).take(k as int),
            forall|m: int| 0 <= m < i ==> np[m] == qv[m],
        decreases k - i,
    {
        if !str_eq_chars(node_path[i].as_str(), &q[i]) {
            assert(np[i as int] != qv[i as int]);
            return false;
        }
        i += 1;
    }
    assert(np =~= qv);
    true
}

/// Whether a node's path begins with `q`.
fn path_starts_with(node_path: &Vec<String>, q: &Vec<Vec<char>>) -> (r: bool)
    ensures
        r == (node_path@.len() >= q@.len() && node_path@.map_values(|s: String| s@).take(
            q@.len() as int,
        ) == views(q@)),
{
    let ghost np = node_path@.map_values(|s: String| s@);
    if node_path.len() < q.len() {
        return false;
    }
    let mut i: usize = 0;
    while i < q.len()
        invariant
            i <= q@.len() <= node_path@.len(),
            np == node_path@.map_values(|s: String| s@),
            forall|m: int| 0 <= m < i ==> np[m] == views(q@)[m],
        decreases q.len() - i,
    {
        if !str_eq_chars(node_path[i].as_str(), &q[i]) {
            assert(np.take(q@.len() as int)[i as int] != views(q@)[i as int]);
            return false;
        }
        i += 1;
    }
    assert(np.take(q@.len() as int) =~= views(q@));
    true
}

/// Index of the node whose path is `q[..k]`.
fn find_node(nodes: &Vec<HierarchyNode>, q: &Vec<Vec<char>>, k: usize) -> (r: Option<usize>)
    requires
        k <= q@.len(),
    ensures
        match r {
            Some(i) => i < nodes@.len() && nodes@[i as int].path_view() == views(q@).take(k as int),
            None => forall|i: int|
                0 <= i < nodes@.len() ==> (#[trigger] nodes@[i]).path_view() != views(q@).take(
                    k as int,
                ),
        },
{
    let mut i: usize = 0;
    while i < nodes.len()
        invariant
            i <= nodes@.len(),
            k <= q@.len(),
            forall|m: int|
                0 <= m < i ==> (#[trigger] nodes@[m]).path_view() != views(q@).take(k as int),
        decreases nodes.len() - i,
    {
        if path_is(&nodes[i].path, q, k) {
            return Some(i);
        }
        i += 1;
    }
    None
}

proof fn lemma_signals_at_witness(inp: Seq<(String, i64)>, p: Seq<Seq<char>>)
    ensures
        signals_at(inp, p).len() > 0 ==> exists|j: int|
            0 <= j < inp.len() && sig_valid(#[trigger] inp[j].0@) && sig_container(inp[j].0@) == p,
    decreases inp.len(),
{
    if inp.len() > 0 {
        lemma_signals_at_witness(inp.drop_last(), p);
        if signals_at(inp.drop_last(), p).len() > 0 {
            let j = choose|j: int|
                0 <= j < inp.drop_last().len() && sig_valid(#[trigger] inp.drop_last()[j].0@)
                    && sig_container(inp.drop_last()[j].0@) == p;
            assert(inp[j] == inp.drop_last()[j]);
        } else if signals_at(inp, p).len() > 0 {
            assert(inp[inp.len() - 1] == inp.last());
        }
    }
}

proof fn lemma_unique_index(nodes: Seq<HierarchyNode>, p: Seq<Seq<char>>, i: int)
    requires
        nodes_wf(nodes),
        0 <= i < nodes.len(),
        nodes[i].path_view() == p,
    ensures
        (choose|m: int| 0 <= m < nodes.len() && (#[trigger] nodes[m]).path_view() == p) == i,
{
    reveal(nodes_wf);
    let m = choose|m: int| 0 <= m < nodes.len() && (#[trigger] nodes[m]).path_view() == p;
    assert(0 <= m < nodes.len() && nodes[m].path_view() == p);
    if m != i {
        assert(nodes[m].path_view() != nodes[i].path_view());
    }
}

/// The container path and label of one signal name, when it names a
/// signal.
fn place_signal(name: &str) -> (r: Option<(Vec<Vec<char>>, String)>)
    ensures
        sig_valid(name@) <==> r is Some,
        r matches Some(x) ==> views(x.0@) == sig_container(name@) && x.1@ == sig_label(name@),
{
    let path = SignalPath::parse(name);
    proof {
        lemma_split_on_nonempty(name@, '.');
    }
    let n = path.components.len();
    assert(path@.len() == n);
    assert(n >= 1);
    let start: usize = if str_eq_chars(path.components[0].name.as_str(), &vec!['m', 'a', 'i', 'n']) {
        1
    } else {
        0
    };
    assert(start == path_start(parse_path(name@)));
    if start >= n {
        return None;
    }
    let mut container: Vec<Vec<char>> = Vec::new();
    let mut i = start;
    let ghost c = parse_path(name@);
    while i < n - 1
        invariant
            path@ == c,
            c == parse_path(name@),
            n == c.len(),
            start <= i <= n - 1,
            start == path_start(c),
            views(container@) == c.subrange(start as int, i as int).map_values(
                |x: (Seq<char>, Option<usize>)| x.0,
            ),
        decreases n - 1 - i,
    {
        let nm = str_chars(path.components[i].name.as_str());
        assert(nm@ == c[i as int].0);
        let ghost before = container@;
        container.push(nm);
        assert(views(container@) =~= views(before).push(nm@));
        assert(c.subrange(start as int, i + 1).map_values(|x: (Seq<char>, Option<usize>)| x.0)
            =~= c.subrange(start as int, i as int).map_values(
            |x: (Seq<char>, Option<usize>)| x.0,
        ).push(c[i as int].0));
        i += 1;
    }
    let label = path.components[n - 1].to_string();
    assert(path@.last() == path@[n - 1]);
    Some((container, label))
}

/// Ensures a node with path `c[..k]` exists, given that one with path
/// `c[..k - 1]` does; returns its index.
fn ensure_node(nodes: &mut Vec<HierarchyNode>, c: &Vec<Vec<char>>, k: usize) -> (r: usize)
    requires
        1 <= k <= c@.len(),
        nodes_wf(old(nodes)@),
        exists|j: int|
            0 <= j < old(nodes)@.len() && (#[trigger] old(nodes)@[j]).path_view() == views(
                c@,
            ).take(k - 1),
    ensures
        nodes_wf(final(nodes)@),
        r < final(nodes)@.len(),
        final(nodes)@[r as int].path_view() == views(c@).take(k as int),
        old(nodes)@.len() <= final(nodes)@.len() <= old(nodes)@.len() + 1,
        forall|i: int| 0 <= i < old(nodes)@.len() ==> final(nodes)@[i] == old(nodes)@[i],
        final(nodes)@.len() == old(nodes)@.len() + 1 ==> (forall|i: int|
            0 <= i < old(nodes)@.len() ==> (#[trigger] old(nodes)@[i]).path_view() != views(
                c@,
            ).take(k as int)) && final(nodes)@.last().signals@.len() == 0,
{
    match find_node(nodes, c, k) {
        Some(i) => i,
        None => {
            let ghost old_nodes = nodes@;
            let name = string_from_chars(&c[k - 1]);
            let mut path: Vec<String> = Vec::new();
            let mut m: usize = 0;
            while m < k
                invariant
                    m <= k <= c@.len(),
                    path@.map_values(|s: String| s@) == views(c@).take(m as int),
                decreases k - m,
            {
                let sm = string_from_chars(&c[m]);
                assert(sm@ == views(c@)[m as int]);
                let ghost before = path@;
                path.push(sm);
                assert(path@.map_values(|s: String| s@) =~= before.map_values(|s: String| s@).push(
                    sm@,
                ));
                assert(views(c@).take(m + 1) =~= views(c@).take(m as int).push(views(c@)[m as int]));
                m += 1;
            }
            let node = HierarchyNode { name, path, signals: Vec::new() };
            nodes.push(node);
            let r = nodes.len() - 1;
            proof {
                reveal(nodes_wf);
                let nv = nodes@;
                assert(nv[r as int].path_view() == views(c@).take(k as int));
                assert(views(c@).take(k as int).last() == views(c@)[k - 1]);
                assert(views(c@).take(k as int).drop_last() =~= views(c@).take(k - 1));
                assert forall|i: int|
                    0 < i < nv.len() implies (#[trigger] nv[i]).path_view().len() > 0 && nv[i].name@
                    == nv[i].path_view().last() by {
                    if i < old_nodes.len() {
                        assert(nv[i] == old_nodes[i]);
                    }
                }
                assert forall|i: int, j: int|
                    0 <= i < nv.len() && 0 <= j < nv.len() && i != j implies (
                    #[trigger] nv[i]).path_view() != (#[trigger] nv[j]).path_view() by {
                    if i < old_nodes.len() {
                        assert(nv[i] == old_nodes[i]);
                    }
                    if j < old_nodes.len() {
                        assert(nv[j] == old_nodes[j]);
                    }
                }
                assert forall|i: int| 0 < i < nv.len() implies exists|j: int|
                    0 <= j < nv.len() && (#[trigger] nv[j]).path_view() == (
                    #[trigger] nv[i]).path_view().drop_last() by {
                    if i < old_nodes.len() {
                        assert(nv[i] == old_nodes[i]);
                        let j = choose|j: int|
                            0 <= j < old_nodes.len() && (#[trigger] old_nodes[j]).path_view() == (
                            #[trigger] old_nodes[i]).path_view().drop_last();
                        assert(nv[j] == old_nodes[j]);
                    } else {
                        let j = choose|j: int|
                            0 <= j < old_nodes.len() && (#[trigger] old_nodes[j]).path_view()
                                == views(c@).take(k - 1);
                        assert(nv[j] == old_nodes[j]);
                    }
                }
                assert(nv[0] == old_nodes[0]);
            }
            r
        },
    }
}

} // verus!

verus! {

pub open spec fn nodes_have(nodes: Seq<HierarchyNode>, p: Seq<Seq<char>>) -> bool {
    exists|m: int| 0 <= m < nodes.len() && (#[trigger] nodes[m]).path_view() == p
}

proof fn lemma_signals_at_step(inp: Seq<(String, i64)>, i: int, p: Seq<Seq<char>>)
    requires
        0 <= i < inp.len(),
    ensures
        signals_at(inp.take(i + 1), p) == (if sig_valid(inp[i].0@) && sig_container(inp[i].0@)
            == p {
            signals_at(inp.take(i), p).push((sig_label(inp[i].0@), inp[i].1))
        } else {
            signals_at(inp.take(i), p)
        }),
{
    assert(inp.take(i + 1).drop_last() =~= inp.take(i));
    assert(inp.take(i + 1).last() == inp[i]);
}

proof fn lemma_component_step(inp: Seq<(String, i64)>, i: int, p: Seq<Seq<char>>)
    requires
        0 <= i < inp.len(),
    ensures
        is_component_of(inp.take(i + 1), p) <==> (is_component_of(inp.take(i), p) || (sig_valid(
            inp[i].0@,
        ) && 1 <= p.len() <= sig_container(inp[i].0@).len() && p == sig_container(
            inp[i].0@,
        ).take(p.len() as int))),
{
    let a = inp.take(i + 1);
    let b = inp.take(i);
    if is_component_of(a, p) {
        let j = choose|j: int|
            0 <= j < a.len() && sig_valid(#[trigger] a[j].0@) && 1 <= p.len() <= sig_container(
                a[j].0@,
            ).len() && p == sig_container(a[j].0@).take(p.len() as int);
        if j < i {
            assert(b[j] == a[j]);
        } else {
            assert(a[j] == inp[i]);
        }
    }
    if is_component_of(b, p) {
        let j = choose|j: int|
            0 <= j < b.len() && sig_valid(#[trigger] b[j].0@) && 1 <= p.len() <= sig_container(
                b[j].0@,
            ).len() && p == sig_container(b[j].0@).take(p.len() as int);
        assert(a[j] == b[j]);
    }
    if sig_valid(inp[i].0@) && 1 <= p.len() <= sig_container(inp[i].0@).len() && p
        == sig_container(inp[i].0@).take(p.len() as int) {
        assert(a[i] == inp[i]);
    }
}


/// Every node holds exactly the signals of `done` whose container is its path.
#[verifier::opaque]
pub open spec fn sigs_ok(nodes: Seq<HierarchyNode>, done: Seq<(String, i64)>) -> bool {
    forall|m: int|
        0 <= m < nodes.len() ==> (#[trigger] nodes[m]).signals_view() == signals_at(
            done,
            nodes[m].path_view(),
        )
}

/// The nodes are the root, the components of `done`, and the first
/// `k - 1` leading parts of `c`.
#[verifier::opaque]
pub open spec fn exist_ok(
    nodes: Seq<HierarchyNode>,
    done: Seq<(String, i64)>,
    c: Seq<Seq<char>>,
    k: int,
) -> bool {
    forall|p: Seq<Seq<char>>|
        nodes_have(nodes, p) <==> (p.len() == 0 || is_component_of(done, p) || (1 <= p.len() < k
            && p == c.take(p.len() as int)))
}

/// One step of making the components of `c` present: the node for
/// `c[..k]`.
fn extend_path(
    nodes: &mut Vec<HierarchyNode>,
    c: &Vec<Vec<char>>,
    k: usize,
    t: usize,
    Ghost(done): Ghost<Seq<(String, i64)>>,
) -> (r: usize)
    requires
        1 <= k <= c@.len(),
        nodes_wf(old(nodes)@),
        t < old(nodes)@.len(),
        old(nodes)@[t as int].path_view() == views(c@).take(k - 1),
        sigs_ok(old(nodes)@, done),
        exist_ok(old(nodes)@, done, views(c@), k as int),
    ensures
        nodes_wf(final(nodes)@),
        r < final(nodes)@.len(),
        final(nodes)@[r as int].path_view() == views(c@).take(k as int),
        sigs_ok(final(nodes)@, done),
        exist_ok(final(nodes)@, done, views(c@), k + 1),
{
    let ghost cv = views(c@);
    let ghost before = nodes@;
    let r = ensure_node(nodes, c, k);
    proof {
        reveal(exist_ok);
        reveal(sigs_ok);
        let after = nodes@;
        let pk = cv.take(k as int);
        if after.len() == before.len() + 1 {
            let last = after.len() - 1;
            assert(r == last) by {
                if r < before.len() {
                    assert(after[r as int] == before[r as int]);
                }
            }
            assert(after[last].signals_view() =~= Seq::<(Seq<char>, i64)>::empty());
            lemma_signals_at_witness(done, pk);
            if signals_at(done, pk).len() > 0 {
                let j = choose|j: int|
                    0 <= j < done.len() && sig_valid(#[trigger] done[j].0@) && sig_container(
                        done[j].0@,
                    ) == pk;
                assert(sig_container(done[j].0@).take(pk.len() as int) =~= pk);
                assert(is_component_of(done, pk));
                assert(nodes_have(before, pk));
                let m = choose|m: int|
                    0 <= m < before.len() && (#[trigger] before[m]).path_view() == pk;
                assert(false);
            }
        }
        assert forall|m: int| 0 <= m < after.len() implies (#[trigger] after[m]).signals_view()
            == signals_at(done, after[m].path_view()) by {
            if m < before.len() {
                assert(after[m] == before[m]);
            }
        }
        assert forall|p: Seq<Seq<char>>|
            nodes_have(after, p) <==> (p.len() == 0 || is_component_of(done, p) || (1 <= p.len()
                < k + 1 && p == cv.take(p.len() as int))) by {
            if nodes_have(after, p) {
                let m = choose|m: int| 0 <= m < after.len() && (#[trigger] after[m]).path_view() == p;
                if m < before.len() {
                    assert(after[m] == before[m]);
                    assert(nodes_have(before, p));
                }
            }
            if p.len() == 0 || is_component_of(done, p) || (1 <= p.len() < k && p == cv.take(
                p.len() as int,
            )) {
                assert(nodes_have(before, p));
                let m = choose|m: int| 0 <= m < before.len() && (#[trigger] before[m]).path_view() == p;
                assert(after[m] == before[m]);
            }
            if p.len() == k && p == cv.take(p.len() as int) {
                assert(after[r as int].path_view() == p);
            }
        }
    }
    r
}

/// Makes every leading part of `c` present; returns the index of the node
/// whose path is `c`.
fn ensure_path(
    nodes: &mut Vec<HierarchyNode>,
    c: &Vec<Vec<char>>,
    Ghost(done): Ghost<Seq<(String, i64)>>,
) -> (t: usize)
    requires
        nodes_wf(old(nodes)@),
        sigs_ok(old(nodes)@, done),
        forall|p: Seq<Seq<char>>|
            nodes_have(old(nodes)@, p) <==> (p.len() == 0 || is_component_of(done, p)),
    ensures
        nodes_wf(final(nodes)@),
        t < final(nodes)@.len(),
        final(nodes)@[t as int].path_view() == views(c@),
        sigs_ok(final(nodes)@, done),
        exist_ok(final(nodes)@, done, views(c@), c@.len() as int + 1),
{
    let ghost cv = views(c@);
    let mut t: usize = 0;
    let mut k: usize = 0;
    proof {
        reveal(nodes_wf);
        assert(cv.take(0) =~= Seq::<Seq<char>>::empty());
        assert(nodes@[0].path_view() =~= cv.take(0));
        reveal(exist_ok);
    }
    while k < c.len()
        invariant
            cv == views(c@),
            k <= c@.len(),
            nodes_wf(nodes@),
            t < nodes@.len(),
            nodes@[t as int].path_view() == cv.take(k as int),
            sigs_ok(nodes@, done),
            exist_ok(nodes@, done, cv, k + 1),
        decreases c.len() - k,
    {
        t = extend_path(nodes, c, k + 1, t, Ghost(done));
        k += 1;
    }
    proof {
        assert(cv.take(c@.len() as int) =~= cv);
    }
    t
}

/// Records one signal in the node at index `t`, whose path is its container.
fn add_signal(
    nodes: &mut Vec<HierarchyNode>,
    t: usize,
    label: String,
    value: i64,
    Ghost(inp): Ghost<Seq<(String, i64)>>,
    Ghost(i): Ghost<int>,
)
    requires
        0 <= i < inp.len(),
        sig_valid(inp[i].0@),
        label@ == sig_label(inp[i].0@),
        value == inp[i].1,
        nodes_wf(old(nodes)@),
        t < old(nodes)@.len(),
        old(nodes)@[t as int].path_view() == sig_container(inp[i].0@),
        sigs_ok(old(nodes)@, inp.take(i)),
        exist_ok(
            old(nodes)@,
            inp.take(i),
            sig_container(inp[i].0@),
            sig_container(inp[i].0@).len() as int + 1,
        ),
    ensures
        nodes_wf(final(nodes)@),
        sigs_ok(final(nodes)@, inp.take(i + 1)),
        forall|p: Seq<Seq<char>>|
            nodes_have(final(nodes)@, p) <==> (p.len() == 0 || is_component_of(inp.take(i + 1), p)),
{
    let ghost before = nodes@;
    let mut node = nodes.remove(t);
    node.signals.push((label, value));
    nodes.insert(t, node);
    proof {
        let after = nodes@;
        assert(after =~= before.update(t as int, after[t as int]));
        assert(after[t as int].signals_view() =~= before[t as int].signals_view().push(
            (sig_label(inp[i].0@), inp[i].1),
        ));
        lemma_wf_same_paths(before, after);
        lemma_sigs_after_add(before, after, t as int, inp, i);
        lemma_exist_after_add(before, after, inp, i);
    }
}

proof fn lemma_wf_same_paths(before: Seq<HierarchyNode>, after: Seq<HierarchyNode>)
    requires
        nodes_wf(before),
        after.len() == before.len(),
        forall|m: int|
            0 <= m < after.len() ==> (#[trigger] after[m]).path_view() == before[m].path_view()
                && after[m].name == before[m].name,
    ensures
        nodes_wf(after),
{
    reveal(nodes_wf);
    assert forall|m: int| 0 < m < after.len() implies exists|j: int|
        0 <= j < after.len() && (#[trigger] after[j]).path_view() == (
        #[trigger] after[m]).path_view().drop_last() by {
        assert(before[m].path_view() == after[m].path_view());
        let j = choose|j: int|
            0 <= j < before.len() && (#[trigger] before[j]).path_view() == (
            #[trigger] before[m]).path_view().drop_last();
        assert(after[j].path_view() == before[j].path_view());
    }
    assert forall|a: int, b: int|
        0 <= a < after.len() && 0 <= b < after.len() && a != b implies (
        #[trigger] after[a]).path_view() != (#[trigger] after[b]).path_view() by {
        assert(before[a].path_view() != before[b].path_view());
    }
    assert(after[0].path_view() == before[0].path_view());
    assert forall|m: int| 0 < m < after.len() implies (#[trigger] after[m]).path_view().len() > 0
        && after[m].name@ == after[m].path_view().last() by {
        assert(before[m].path_view() == after[m].path_view());
    }
}

proof fn lemma_sigs_after_add(
    before: Seq<HierarchyNode>,
    after: Seq<HierarchyNode>,
    t: int,
    inp: Seq<(String, i64)>,
    i: int,
)
    requires
        0 <= i < inp.len(),
        sig_valid(inp[i].0@),
        nodes_wf(before),
        0 <= t < before.len(),
        after == before.update(t, after[t]),
        after[t].path_view() == before[t].path_view(),
        before[t].path_view() == sig_container(inp[i].0@),
        after[t].signals_view() == before[t].signals_view().push(
            (sig_label(inp[i].0@), inp[i].1),
        ),
        sigs_ok(before, inp.take(i)),
    ensures
        sigs_ok(after, inp.take(i + 1)),
{
    reveal(sigs_ok);
    reveal(nodes_wf);
    assert forall|m: int| 0 <= m < after.len() implies (#[trigger] after[m]).signals_view()
        == signals_at(inp.take(i + 1), after[m].path_view()) by {
        lemma_signals_at_step(inp, i, after[m].path_view());
        if m != t {
            assert(after[m] == before[m]);
            assert(before[m].path_view() != before[t].path_view());
        }
    }
}

proof fn lemma_exist_after_add(
    before: Seq<HierarchyNode>,
    after: Seq<HierarchyNode>,
    inp: Seq<(String, i64)>,
    i: int,
)
    requires
        0 <= i < inp.len(),
        sig_valid(inp[i].0@),
        after.len() == before.len(),
        forall|m: int|
            0 <= m < after.len() ==> (#[trigger] after[m]).path_view() == before[m].path_view(),
        exist_ok(before, inp.take(i), sig_container(inp[i].0@), sig_container(inp[i].0@).len() as int + 1),
    ensures
        forall|p: Seq<Seq<char>>|
            nodes_have(after, p) <==> (p.len() == 0 || is_component_of(inp.take(i + 1), p)),
{
    reveal(exist_ok);
    assert forall|p: Seq<Seq<char>>|
        nodes_have(after, p) <==> (p.len() == 0 || is_component_of(inp.take(i + 1), p)) by {
        lemma_component_step(inp, i, p);
        if nodes_have(after, p) {
            let m = choose|m: int| 0 <= m < after.len() && (#[trigger] after[m]).path_view() == p;
            assert(before[m].path_view() == p);
        }
        if nodes_have(before, p) {
            let m = choose|m: int| 0 <= m < before.len() && (#[trigger] before[m]).path_view() == p;
            assert(after[m].path_view() == p);
        }
    }
}

proof fn lemma_skip_signal(nodes: Seq<HierarchyNode>, inp: Seq<(String, i64)>, i: int)
    requires
        0 <= i < inp.len(),
        !sig_valid(inp[i].0@),
        sigs_ok(nodes, inp.take(i)),
        forall|p: Seq<Seq<char>>|
            nodes_have(nodes, p) <==> (p.len() == 0 || is_component_of(inp.take(i), p)),
    ensures
        sigs_ok(nodes, inp.take(i + 1)),
        forall|p: Seq<Seq<char>>|
            nodes_have(nodes, p) <==> (p.len() == 0 || is_component_of(inp.take(i + 1), p)),
{
    reveal(sigs_ok);
    assert forall|m: int| 0 <= m < nodes.len() implies (#[trigger] nodes[m]).signals_view()
        == signals_at(inp.take(i + 1), nodes[m].path_view()) by {
        lemma_signals_at_step(inp, i, nodes[m].path_view());
    }
    assert forall|p: Seq<Seq<char>>|
        nodes_have(nodes, p) <==> (p.len() == 0 || is_component_of(inp.take(i + 1), p)) by {
        lemma_component_step(inp, i, p);
    }
}

proof fn lemma_built(ns: Seq<HierarchyNode>, inp: Seq<(String, i64)>)
    requires
        nodes_wf(ns),
        sigs_ok(ns, inp),
        forall|p: Seq<Seq<char>>| nodes_have(ns, p) <==> (p.len() == 0 || is_component_of(inp, p)),
    ensures
        forall|p: Seq<Seq<char>>|
            #[trigger] nodes_signals_of(ns, p) == signals_at(inp, p),
{
    reveal(sigs_ok);
    assert forall|p: Seq<Seq<char>>| #[trigger] nodes_signals_of(ns, p) == signals_at(inp, p) by {
        if nodes_have(ns, p) {
            let m = choose|m: int| 0 <= m < ns.len() && (#[trigger] ns[m]).path_view() == p;
            lemma_unique_index(ns, p, m);
        } else {
            lemma_signals_at_witness(inp, p);
            if signals_at(inp, p).len() > 0 {
                let j = choose|j: int|
                    0 <= j < inp.len() && sig_valid(#[trigger] inp[j].0@) && sig_container(
                        inp[j].0@,
                    ) == p;
                if p.len() > 0 {
                    assert(sig_container(inp[j].0@).take(p.len() as int) =~= p);
                    assert(is_component_of(inp, p));
                }
                assert(nodes_have(ns, p));
            }
        }
    }
}

proof fn lemma_parse_component_plain(part: Seq<char>)
    requires
        !part.contains('.'),
    ensures
        plain_name(parse_component(part).0),
{
    lemma_find_char_props(part, '[');
    match find_char(part, '[') {
        Some(i) => {
            let t = part.take(i);
            assert(!t.contains('[')) by {
                if t.contains('[') {
                    let q = choose|q: int| 0 <= q < t.len() && t[q] == '[';
                    assert(part[q] == '[');
                }
            }
            assert(!t.contains('.')) by {
                if t.contains('.') {
                    let q = choose|q: int| 0 <= q < t.len() && t[q] == '.';
                    assert(part[q] == '.');
                    assert(part.contains('.'));
                }
            }
        },
        None => {
            assert(!part.contains('[')) by {
                if part.contains('[') {
                    let q = choose|q: int| 0 <= q < part.len() && part[q] == '[';
                    assert(part[q] == '[');
                }
            }
        },
    }
}

proof fn lemma_container_plain(name: Seq<char>, k: int)
    requires
        sig_valid(name),
        0 <= k < sig_container(name).len(),
    ensures
        plain_name(sig_container(name)[k]),
{
    let c = parse_path(name);
    let st = path_start(c);
    let parts = split_on(name, '.');
    crate::text::lemma_join_split(name, '.');
    assert(sig_container(name)[k] == c[st + k].0);
    assert(c[st + k] == parse_component(parts[st + k]));
    lemma_parse_component_plain(parts[st + k]);
}

proof fn lemma_nodes_parent(nodes: Seq<HierarchyNode>, p: Seq<Seq<char>>, c: Seq<char>)
    requires
        nodes_wf(nodes),
        nodes_have(nodes, p.push(c)),
    ensures
        nodes_have(nodes, p),
{
    reveal(nodes_wf);
    let i = choose|i: int| 0 <= i < nodes.len() && (#[trigger] nodes[i]).path_view() == p.push(c);
    assert(i != 0);
    let j = choose|j: int|
        0 <= j < nodes.len() && (#[trigger] nodes[j]).path_view() == nodes[i].path_view().drop_last();
    assert(p.push(c).drop_last() =~= p);
}

/// A component's parent is present: where a hierarchy has a node at `p`
/// followed by `c`, it has one at `p`.
pub proof fn lemma_child_has_parent(h: SignalHierarchy, p: Seq<Seq<char>>, c: Seq<char>)
    requires
        h.valid(),
        h.has_node(p.push(c)),
    ensures
        h.has_node(p),
{
    assert(nodes_have(h.nodes@, p.push(c)));
    lemma_nodes_parent(h.nodes@, p, c);
}

/// Build a signal hierarchy from a flat list of `(full_signal_name, value)` pairs.
///
/// Signal names are expected in dotted notation, e.g.:
/// - `"main.out"` (direct signal of main)
/// - `"main.adder.out"` (signal of a sub-component)
/// - `"main.values[0]"` (array signal)
///
/// A component exists for the root and for every leading part of every
/// signal's container path; each component holds, in input order, the
/// signals whose container path is exactly its own.
pub fn build_hierarchy(signals: &[(String, i64)]) -> (h: SignalHierarchy)
    ensures
        forall|p: Seq<Seq<char>>|
            h.has_node(p) <==> (p.len() == 0 || is_component_of(signals@, p)),
        forall|p: Seq<Seq<char>>| #[trigger] h.signals_of(p) == signals_at(signals@, p),
        h.valid(),
        forall|p: Seq<Seq<char>>, k: int|
            #![trigger h.has_node(p), p[k]]
            h.has_node(p) && 0 <= k < p.len() ==> plain_name(p[k]),
        forall|p: Seq<Seq<char>>|
            #![trigger h.has_node(p)]
            h.has_node(p) && p.len() > 0 ==> exists|q: Seq<Seq<char>>|
                #![trigger h.signals_of(q)]
                h.has_node(q) && p.is_prefix_of(q) && h.signals_of(q).len() > 0,
{
    let root = HierarchyNode {
        name: string_from_chars(&vec!['m', 'a', 'i', 'n']),
        path: Vec::new(),
        signals: Vec::new(),
    };
    let mut nodes: Vec<HierarchyNode> = Vec::new();
    nodes.push(root);
    let ghost inp = signals@;
    proof {
        assert(nodes@[0].path_view() =~= Seq::<Seq<char>>::empty());
        assert(inp.take(0) =~= Seq::<(String, i64)>::empty());
        assert forall|p: Seq<Seq<char>>|
            nodes_have(nodes@, p) <==> (p.len() == 0 || is_component_of(inp.take(0), p)) by {
            if p.len() == 0 {
                assert(nodes@[0].path_view() =~= p);
            }
        }
        reveal(sigs_ok);
        assert(nodes@[0].signals_view() =~= Seq::<(Seq<char>, i64)>::empty());
    }
    proof {
        reveal(nodes_wf);
    }
    let mut i: usize = 0;
    while i < signals.len()
        invariant
            inp == signals@,
            i <= inp.len(),
            nodes_wf(nodes@),
            sigs_ok(nodes@, inp.take(i as int)),
            forall|p: Seq<Seq<char>>|
                nodes_have(nodes@, p) <==> (p.len() == 0 || is_component_of(
                    inp.take(i as int),
                    p,
                )),
        decreases signals.len() - i,
    {
        let placed = place_signal(signals[i].0.as_str());
        match placed {
            None => {
                proof {
                    lemma_skip_signal(nodes@, inp, i as int);
                }
            },
            Some((container, label)) => {
                let t = ensure_path(&mut nodes, &container, Ghost(inp.take(i as int)));
                add_signal(&mut nodes, t, label, signals[i].1, Ghost(inp), Ghost(i as int));
            },
        }
        i += 1;
    }
    proof {
        assert(inp.take(inp.len() as int) =~= inp);
    }
    proof {
        lemma_built(nodes@, inp);
    }
    let h = SignalHierarchy { nodes };
    proof {
        assert forall|p: Seq<Seq<char>>| #[trigger] h.signals_of(p) == signals_at(inp, p) by {
            assert(h.signals_of(p) == nodes_signals_of(h.nodes@, p));
        }
        assert forall|p: Seq<Seq<char>>|
            h.has_node(p) <==> (p.len() == 0 || is_component_of(inp, p)) by {
            assert(h.has_node(p) == nodes_have(h.nodes@, p));
        }
        assert forall|p: Seq<Seq<char>>, k: int|
            h.has_node(p) && 0 <= k < p.len() implies plain_name(#[trigger] p[k]) by {
            assert(h.has_node(p) == nodes_have(h.nodes@, p));
            if p.len() > 0 {
                let j = choose|j: int|
                    0 <= j < inp.len() && sig_valid(#[trigger] inp[j].0@) && 1 <= p.len()
                        <= sig_container(inp[j].0@).len() && p == sig_container(inp[j].0@).take(
                        p.len() as int,
                    );
                lemma_container_plain(inp[j].0@, k);
            }
        }
        assert forall|p: Seq<Seq<char>>| h.has_node(p) && p.len() > 0 implies exists|q: Seq<Seq<char>>|
            #![trigger h.signals_of(q)]
            h.has_node(q) && p.is_prefix_of(q) && h.signals_of(q).len() > 0 by {
            assert(h.has_node(p) == nodes_have(h.nodes@, p));
            let j = choose|j: int|
                0 <= j < inp.len() && sig_valid(#[trigger] inp[j].0@) && 1 <= p.len()
                    <= sig_container(inp[j].0@).len() && p == sig_container(inp[j].0@).take(
                    p.len() as int,
                );
            let q = sig_container(inp[j].0@);
            assert(q.take(q.len() as int) =~= q);
            assert(is_component_of(inp, q));
            assert(h.has_node(q) == nodes_have(h.nodes@, q));
            lemma_signal_found(inp, j);
            assert(h.signals_of(q) == signals_at(inp, q));
            assert(p =~= q.subrange(0, p.len() as int));
        }
    }
    h
}

} // verus!

verus! {

/// The label's array index when its base name is `base`: the part before
/// the first `[` must equal `base`, and the part after it, with trailing `]`
/// removed, must read as a `usize`.
pub open spec fn array_index(label: Seq<char>, base: Seq<char>) -> Option<usize> {
    match find_char(label, '[') {
        Some(p) => if label.take(p) == base {
            parse_usize(trim_end_char(label.skip(p + 1), ']'))
        } else {
            None
        },
        None => None,
    }
}

/// The `(index, value)` pairs of the signals that are elements of the array
/// `base`, in order.
pub open spec fn array_entries(sigs: Seq<(Seq<char>, i64)>, base: Seq<char>) -> Seq<(usize, i64)>
    decreases sigs.len(),
{
    if sigs.len() == 0 {
        Seq::empty()
    } else {
        let rest = array_entries(sigs.drop_last(), base);
        match array_index(sigs.last().0, base) {
            Some(i) => rest.push((i, sigs.last().1)),
            None => rest,
        }
    }
}

/// `x` placed after every element whose index is at most its own.
pub open spec fn insert_by_index(s: Seq<(usize, i64)>, x: (usize, i64)) -> Seq<(usize, i64)>
    decreases s.len(),
{
    if s.len() == 0 {
        seq![x]
    } else if s.last().0 <= x.0 {
        s.push(x)
    } else {
        insert_by_index(s.drop_last(), x).push(s.last())
    }
}

/// Stable sort by index.
pub open spec fn sort_by_index(s: Seq<(usize, i64)>) -> Seq<(usize, i64)>
    decreases s.len(),
{
    if s.len() == 0 {
        s
    } else {
        insert_by_index(sort_by_index(s.drop_last()), s.last())
    }
}

pub open spec fn sorted_by_index(s: Seq<(usize, i64)>) -> bool {
    forall|a: int, b: int| 0 <= a < b < s.len() ==> (#[trigger] s[a]).0 <= (#[trigger] s[b]).0
}

proof fn lemma_insert_at(s: Seq<(usize, i64)>, x: (usize, i64), j: int)
    requires
        0 <= j <= s.len(),
        forall|k: int| j <= k < s.len() ==> (#[trigger] s[k]).0 > x.0,
        j == 0 || s[j - 1].0 <= x.0,
    ensures
        insert_by_index(s, x) == s.take(j).push(x) + s.skip(j),
    decreases s.len(),
{
    if s.len() == 0 {
        assert(s.take(j).push(x) + s.skip(j) =~= seq![x]);
    } else if j == s.len() {
        assert(s.take(j).push(x) + s.skip(j) =~= s.push(x));
    } else {
        lemma_insert_at(s.drop_last(), x, j);
        assert(s.drop_last().take(j).push(x) + s.drop_last().skip(j) + seq![s.last()] =~= s.take(
            j,
        ).push(x) + s.skip(j));
    }
}

pub proof fn lemma_insert_sorted(s: Seq<(usize, i64)>, x: (usize, i64))
    requires
        sorted_by_index(s),
    ensures
        sorted_by_index(insert_by_index(s, x)),
        insert_by_index(s, x).to_multiset() == s.to_multiset().insert(x),
    decreases s.len(),
{
    broadcast use vstd::seq_lib::group_to_multiset_ensures;

    if s.len() == 0 {
        assert(seq![x] =~= Seq::<(usize, i64)>::empty().push(x));
    } else if s.last().0 <= x.0 {
    } else {
        lemma_insert_sorted(s.drop_last(), x);
        let r = insert_by_index(s.drop_last(), x);
        assert(s.drop_last().push(s.last()) =~= s);
        assert forall|k: int| 0 <= k < r.len() implies (#[trigger] r[k]).0 <= s.last().0 by {
            assert(r.to_multiset().count(r[k]) > 0);
            assert(r.to_multiset() == s.drop_last().to_multiset().insert(x));
            if r[k] != x {
                assert(s.drop_last().to_multiset().count(r[k]) > 0);
                assert(s.drop_last().contains(r[k]));
                let m = choose|m: int| 0 <= m < s.drop_last().len() && s.drop_last()[m] == r[k];
                assert(s[m] == r[k]);
            }
        }
    }
}

/// The result of `sort_by_index` is ordered and holds the same elements.
pub proof fn lemma_sort_by_index(s: Seq<(usize, i64)>)
    ensures
        sorted_by_index(sort_by_index(s)),
        sort_by_index(s).to_multiset() == s.to_multiset(),
    decreases s.len(),
{
    broadcast use vstd::seq_lib::group_to_multiset_ensures;

    if s.len() > 0 {
        lemma_sort_by_index(s.drop_last());
        lemma_insert_sorted(sort_by_index(s.drop_last()), s.last());
        assert(s.drop_last().push(s.last()) =~= s);
    }
}

} // verus!

verus! {

/// The views of a list of strings.
pub open spec fn string_views(v: Seq<String>) -> Seq<Seq<char>> {
    v.map_values(|s: String| s@)
}

/// The query path of a list of names as character vectors.
fn query_chars(path: &[&str]) -> (q: Vec<Vec<char>>)
    ensures
        views(q@) == query_path(str_views(path@)),
{
    let mut all: Vec<Vec<char>> = Vec::new();
    let mut i: usize = 0;
    while i < path.len()
        invariant
            i <= path@.len(),
            views(all@) == str_views(path@).take(i as int),
        decreases path.len() - i,
    {
        let ghost before = all@;
        all.push(str_chars(path[i]));
        assert(views(all@) =~= views(before).push(path@[i as int]@));
        assert(str_views(path@).take(i + 1) =~= str_views(path@).take(i as int).push(
            path@[i as int]@,
        ));
        i += 1;
    }
    assert(str_views(path@).take(path@.len() as int) =~= str_views(path@));
    if all.len() > 0 && chars_eq(&all[0], &vec!['m', 'a', 'i', 'n']) {
        let mut q: Vec<Vec<char>> = Vec::new();
        let mut k: usize = 1;
        while k < all.len()
            invariant
                1 <= k <= all@.len(),
                views(q@) == views(all@).subrange(1, k as int),
            decreases all.len() - k,
        {
            let ghost before = q@;
            q.push(copy_range(&all[k], 0, all[k].len()));
            assert(all@[k as int]@.subrange(0, all@[k as int]@.len() as int) =~= all@[k as int]@);
            assert(views(q@) =~= views(before).push(all@[k as int]@));
            assert(views(all@).subrange(1, k + 1) =~= views(all@).subrange(1, k as int).push(
                all@[k as int]@,
            ));
            k += 1;
        }
        assert(views(all@).subrange(1, all@.len() as int) =~= views(all@).drop_first());
        assert(views(all@)[0] == all@[0]@);
        q
    } else {
        proof {
            if all@.len() > 0 {
                assert(views(all@)[0] == all@[0]@);
            }
        }
        all
    }
}

impl SignalHierarchy {
    /// The root node (`main`).
    pub fn root(&self) -> (r: &HierarchyNode)
        ensures
            r.path_view().len() == 0,
            r.name@ == main_name(),
            r.signals_view() == self.signals_of(Seq::empty()),
    {
        proof {
            use_type_invariant(self);
            reveal(nodes_wf);
            assert(self.nodes@[0].path_view() =~= Seq::<Seq<char>>::empty());
            lemma_unique_index(self.nodes@, Seq::empty(), 0);
        }
        &self.nodes[0]
    }

    /// All nodes: the root first, then the sub-components in the order they
    /// were first met.  Each is named after the last part of its path
    /// (`main` for the root) and holds the signals of its component.
    pub fn nodes(&self) -> (r: &Vec<HierarchyNode>)
        ensures
            r@.map_values(|n: HierarchyNode| n.path_view()) == self.paths(),
            forall|k: int|
                0 <= k < r@.len() ==> (#[trigger] r@[k])@ == (
                    if self.paths()[k].len() == 0 {
                        main_name()
                    } else {
                        self.paths()[k].last()
                    },
                    self.paths()[k],
                    self.signals_of(self.paths()[k]),
                ),
    {
        proof {
            use_type_invariant(self);
            reveal(nodes_wf);
            assert forall|k: int| 0 <= k < self.nodes@.len() implies (#[trigger] self.nodes@[k])@ == (
                if self.paths()[k].len() == 0 {
                    main_name()
                } else {
                    self.paths()[k].last()
                },
                self.paths()[k],
                self.signals_of(self.paths()[k]),
            ) by {
                assert(self.paths()[k] == self.nodes@[k].path_view());
                lemma_unique_index(self.nodes@, self.nodes@[k].path_view(), k);
            }
        }
        &self.nodes
    }

    /// Query all signals under a given component path.
    ///
    /// For example, `get_signals_for_component(&["main", "adder"])` returns
    /// all signals directly in the `adder` sub-component.
    pub fn get_signals_for_component(&self, path: &[&str]) -> (r: Vec<(String, i64)>)
        ensures
            pair_views(r@) == self.signals_of(query_path(str_views(path@))),
    {
        proof {
            use_type_invariant(self);
        }
        let q = query_chars(path);
        match find_node(&self.nodes, &q, q.len()) {
            Some(m) => {
                proof {
                    assert(views(q@).take(q@.len() as int) =~= views(q@));
                    lemma_unique_index(self.nodes@, views(q@), m as int);
                }
                let r = clone_pairs(&self.nodes[m].signals);
                r
            },
            None => {
                proof {
                    assert(views(q@).take(q@.len() as int) =~= views(q@));
                    assert(!self.has_node(views(q@)));
                    assert(pair_views(Seq::<(String, i64)>::empty()) =~= Seq::<
                        (Seq<char>, i64),
                    >::empty());
                }
                Vec::new()
            },
        }
    }

    /// Get all direct child component names under a given path.
    pub fn get_child_components(&self, path: &[&str]) -> (r: Vec<String>)
        ensures
            forall|c: Seq<char>|
                string_views(r@).contains(c) <==> self.has_node(
                    query_path(str_views(path@)).push(c),
                ),
            string_views(r@).no_duplicates(),
            !self.has_node(query_path(str_views(path@))) ==> r@.len() == 0,
    {
        proof {
            use_type_invariant(self);
            reveal(nodes_wf);
        }
        let q = query_chars(path);
        let ghost e = views(q@);
        let mut r: Vec<String> = Vec::new();
        let mut m: usize = 0;
        while m < self.nodes.len()
            invariant
                e == views(q@),
                nodes_wf(self.nodes@),
                m <= self.nodes@.len(),
                forall|a: int|
                    0 <= a < r@.len() ==> exists|n: int|
                        0 <= n < m && (#[trigger] self.nodes@[n]).path_view() == e.push(
                            #[trigger] r@[a]@,
                        ),
                forall|n: int|
                    0 <= n < m && (#[trigger] self.nodes@[n]).path_view().len() == e.len() + 1
                        && self.nodes@[n].path_view().take(e.len() as int) == e ==> r@.map_values(
                        |s: String| s@,
                    ).contains(self.nodes@[n].path_view().last()),
                string_views(r@).no_duplicates(),
            decreases self.nodes.len() - m,
        {
            let node = &self.nodes[m];
            let ghost pv = node.path_view();
            if node.path.len() > 0 && node.path.len() - 1 == q.len() && path_starts_with(&node.path, &q) {
                let ghost before = r@;
                proof {
                    reveal(nodes_wf);
                    assert(m > 0) by {
                        if m == 0 {
                            assert(pv.len() == 0);
                        }
                    }
                    assert(pv =~= e.push(pv.last()));
                    assert(node.name@ == pv.last());
                    assert(!string_views(before).contains(pv.last())) by {
                        if string_views(before).contains(pv.last()) {
                            let a = choose|a: int|
                                0 <= a < before.len() && #[trigger] string_views(before)[a]
                                    == pv.last();
                            assert(before[a]@ == pv.last());
                            let n = choose|n: int|
                                0 <= n < m && (#[trigger] self.nodes@[n]).path_view() == e.push(
                                    #[trigger] before[a]@,
                                );
                            assert(self.nodes@[n].path_view() == self.nodes@[m as int].path_view());
                        }
                    }
                }
                r.push(node.name.clone());
                proof {
                    assert(string_views(r@) =~= string_views(before).push(
                        pv.last(),
                    ));
                    assert forall|a: int|
                        0 <= a < r@.len() implies exists|n: int|
                        0 <= n < m + 1 && (#[trigger] self.nodes@[n]).path_view() == e.push(
                            #[trigger] r@[a]@,
                        ) by {
                        if a < before.len() {
                            assert(r@[a] == before[a]);
                        } else {
                            assert(self.nodes@[m as int].path_view() == e.push(r@[a]@));
                        }
                    }
                    assert forall|n: int|
                        0 <= n < m + 1 && (#[trigger] self.nodes@[n]).path_view().len() == e.len()
                            + 1 && self.nodes@[n].path_view().take(e.len() as int)
                            == e implies string_views(r@).contains(
                        self.nodes@[n].path_view().last(),
                    ) by {
                        if n < m {
                            let a = choose|a: int|
                                0 <= a < before.len() && #[trigger] string_views(before)[a]
                                    == self.nodes@[n].path_view().last();
                            assert(string_views(r@)[a] == self.nodes@[n].path_view().last());
                        } else {
                            assert(string_views(r@)[before.len() as int] == pv.last());
                        }
                    }
                }
            } else {
                proof {
                    assert forall|n: int|
                        0 <= n < m + 1 && (#[trigger] self.nodes@[n]).path_view().len() == e.len()
                            + 1 && self.nodes@[n].path_view().take(e.len() as int)
                            == e implies string_views(r@).contains(
                        self.nodes@[n].path_view().last(),
                    ) by {
                        if n == m {
                            assert(node.path@.len() == pv.len());
                        }
                    }
                }
            }
            m += 1;
        }
        proof {
            assert forall|c: Seq<char>|
                string_views(r@).contains(c) <==> self.has_node(e.push(c)) by {
                if string_views(r@).contains(c) {
                    let a = choose|a: int|
                        0 <= a < r@.len() && #[trigger] string_views(r@)[a] == c;
                    assert(r@[a]@ == c);
                    let n = choose|n: int|
                        0 <= n < m && (#[trigger] self.nodes@[n]).path_view() == e.push(
                            #[trigger] r@[a]@,
                        );
                }
                if self.has_node(e.push(c)) {
                    let n = choose|n: int|
                        0 <= n < self.nodes@.len() && (#[trigger] self.nodes@[n]).path_view()
                            == e.push(c);
                    assert(e.push(c).take(e.len() as int) =~= e);
                }
            }
            if r@.len() > 0 {
                assert(string_views(r@)[0] == r@[0]@);
                assert(string_views(r@).contains(r@[0]@));
                assert(self.has_node(e.push(r@[0]@)));
                lemma_nodes_parent(self.nodes@, e, r@[0]@);
            }
        }
        r
    }
}

} // verus!

verus! {

/// A signal with label `e.0` of the component at `p`, under its full
/// dotted name: `main`, the path and the label, joined by dots.
pub open spec fn dotted_entry(p: Seq<Seq<char>>, e: (Seq<char>, i64)) -> (Seq<char>, i64) {
    (join(seq![main_name()] + p, '.') + seq!['.'] + e.0, e.1)
}

proof fn lemma_flat_nodes_paths(h: SignalHierarchy, m: int)
    requires
        nodes_wf(h.nodes@),
        0 <= m <= h.nodes@.len(),
    ensures
        flat_nodes(h.nodes@.take(m)) == h.flat_of(h.paths().take(m)),
    decreases m,
{
    let nodes = h.nodes@;
    if m > 0 {
        lemma_flat_nodes_paths(h, m - 1);
        assert(nodes.take(m).drop_last() =~= nodes.take(m - 1));
        assert(h.paths().take(m).drop_last() =~= h.paths().take(m - 1));
        let n = nodes[m - 1];
        assert(nodes.take(m).last() == n);
        assert(h.paths().take(m).last() == n.path_view());
        lemma_unique_index(nodes, n.path_view(), m - 1);
        assert(h.signals_of(n.path_view()) == n.signals_view());
        assert(flat_node(n) =~= n.signals_view().map_values(
            |e: (Seq<char>, i64)| dotted_entry(n.path_view(), e),
        ));
    } else {
        assert(nodes.take(0) =~= Seq::<HierarchyNode>::empty());
        assert(h.paths().take(0) =~= Seq::<Seq<Seq<char>>>::empty());
    }
}

/// The dotted name of a node: `main`, then its path.
pub open spec fn node_dotted(n: HierarchyNode) -> Seq<char> {
    join(seq![main_name()] + n.path_view(), '.')
}

/// A node's signals under their full dotted names.
pub open spec fn flat_node(n: HierarchyNode) -> Seq<(Seq<char>, i64)> {
    n.signals_view().map_values(|e: (Seq<char>, i64)| (node_dotted(n) + seq!['.'] + e.0, e.1))
}

/// The signals of all nodes under their full dotted names, node by node.
pub open spec fn flat_nodes(nodes: Seq<HierarchyNode>) -> Seq<(Seq<char>, i64)>
    decreases nodes.len(),
{
    if nodes.len() == 0 {
        Seq::empty()
    } else {
        flat_nodes(nodes.drop_last()) + flat_node(nodes.last())
    }
}

fn array_index_exec(label: &str, base: &[char]) -> (r: Option<usize>)
    ensures
        r == array_index(label@, base@),
{
    let lc = str_chars(label);
    match find_char_exec(&lc, '[') {
        Some(p) => {
            proof {
                lemma_find_char_props(lc@, '[');
            }
            assert(p < lc.len());
            let name = copy_range(&lc, 0, p);
            assert(lc@.subrange(0, p as int) =~= lc@.take(p as int));
            if chars_eq(&name, base) {
                let rest = copy_range(&lc, p + 1, lc.len());
                assert(lc@.subrange(p + 1, lc@.len() as int) =~= lc@.skip(p + 1));
                parse_usize_exec(&trim_end_char_exec(&rest, ']'))
            } else {
                None
            }
        },
        None => None,
    }
}

fn insert_sorted_exec(v: &mut Vec<(usize, i64)>, x: (usize, i64))
    ensures
        final(v)@ == insert_by_index(old(v)@, x),
{
    let mut j = v.len();
    while j > 0 && v[j - 1].0 > x.0
        invariant
            j <= v@.len(),
            forall|k: int| j <= k < v@.len() ==> (#[trigger] v@[k]).0 > x.0,
        decreases j,
    {
        j -= 1;
    }
    proof {
        lemma_insert_at(v@, x, j as int);
    }
    let ghost before = v@;
    v.insert(j, x);
    assert(v@ =~= before.take(j as int).push(x) + before.skip(j as int));
}

/// Entry `k` of node `i`'s signals under its full dotted name.
pub open spec fn flat_at(nodes: Seq<HierarchyNode>, i: int, k: int) -> (Seq<char>, i64) {
    (node_dotted(nodes[i]) + seq!['.'] + nodes[i].signals_view()[k].0, nodes[i].signals_view()[k].1)
}

proof fn lemma_flat_nodes_contains(nodes: Seq<HierarchyNode>, e: (Seq<char>, i64))
    ensures
        flat_nodes(nodes).contains(e) <==> exists|i: int, k: int|
            0 <= i < nodes.len() && 0 <= k < nodes[i].signals_view().len() && e == #[trigger] flat_at(
                nodes,
                i,
                k,
            ),
    decreases nodes.len(),
{
    if nodes.len() > 0 {
        let init = nodes.drop_last();
        let last = nodes.last();
        let n = nodes.len() - 1;
        lemma_flat_nodes_contains(init, e);
        let a = flat_nodes(init);
        let b = flat_node(last);
        assert(flat_nodes(nodes) == a + b);
        if flat_nodes(nodes).contains(e) {
            let q = choose|q: int| 0 <= q < (a + b).len() && (a + b)[q] == e;
            if q < a.len() {
                assert(a[q] == e);
                assert(a.contains(e));
                let (i, k) = choose|i: int, k: int|
                    0 <= i < init.len() && 0 <= k < init[i].signals_view().len() && e == #[trigger] flat_at(
                        init,
                        i,
                        k,
                    );
                assert(init[i] == nodes[i]);
                assert(flat_at(nodes, i, k) == flat_at(init, i, k));
            } else {
                let k = q - a.len();
                assert(b[k] == e);
                assert(flat_at(nodes, n, k) == b[k]);
            }
        }
        if exists|i: int, k: int|
            0 <= i < nodes.len() && 0 <= k < nodes[i].signals_view().len() && e == #[trigger] flat_at(
                nodes,
                i,
                k,
            ) {
            let (i, k) = choose|i: int, k: int|
                0 <= i < nodes.len() && 0 <= k < nodes[i].signals_view().len() && e == #[trigger] flat_at(
                    nodes,
                    i,
                    k,
                );
            if i < n {
                assert(init[i] == nodes[i]);
                assert(flat_at(init, i, k) == flat_at(nodes, i, k));
                assert(a.contains(e));
                let q = choose|q: int| 0 <= q < a.len() && a[q] == e;
                assert((a + b)[q] == e);
            } else {
                assert(b[k] == flat_at(nodes, n, k));
                assert((a + b)[a.len() + k] == e);
            }
        }
    }
}

impl SignalHierarchy {
    /// The signals of the components at the paths `ps`, in that order, each
    /// under its full dotted name.
    pub open spec fn flat_of(self, ps: Seq<Seq<Seq<char>>>) -> Seq<(Seq<char>, i64)>
        decreases ps.len(),
    {
        if ps.len() == 0 {
            Seq::empty()
        } else {
            self.flat_of(ps.drop_last()) + self.signals_of(ps.last()).map_values(
                |e: (Seq<char>, i64)| dotted_entry(ps.last(), e),
            )
        }
    }

    /// The signals of all components under their full dotted names, node by
    /// node in creation order.
    pub open spec fn flattened(self) -> Seq<(Seq<char>, i64)> {
        self.flat_of(self.paths())
    }

    /// Whether `e` is a signal of some component under its full dotted
    /// name: `main`, the component's path and the signal's label, joined
    /// by dots.
    pub open spec fn flat_entry(self, e: (Seq<char>, i64)) -> bool {
        exists|p: Seq<Seq<char>>, k: int|
            #![trigger self.signals_of(p)[k]]
            self.has_node(p) && 0 <= k < self.signals_of(p).len() && e == (join(
                seq![main_name()] + p,
                '.',
            ) + seq!['.'] + self.signals_of(p)[k].0, self.signals_of(p)[k].1)
    }

    /// Get all signals whose leaf name matches an array pattern (same base name,
    /// different indices). Returns them sorted by index.
    pub fn get_array_signals(&self, path: &[&str], base_name: &str) -> (r: Vec<(usize, i64)>)
        ensures
            r@ == sort_by_index(
                array_entries(self.signals_of(query_path(str_views(path@))), base_name@),
            ),
    {
        let signals = self.get_signals_for_component(path);
        let ghost sv = pair_views(signals@);
        let base = str_chars(base_name);
        let mut entries: Vec<(usize, i64)> = Vec::new();
        let mut i: usize = 0;
        while i < signals.len()
            invariant
                sv == pair_views(signals@),
                base@ == base_name@,
                i <= signals@.len(),
                entries@ == array_entries(sv.take(i as int), base@),
            decreases signals.len() - i,
        {
            let ghost prev = sv.take(i as int);
            assert(sv.take(i + 1).drop_last() =~= prev);
            assert(sv.take(i + 1).last() == (signals@[i as int].0@, signals@[i as int].1));
            match array_index_exec(signals[i].0.as_str(), &base) {
                Some(idx) => {
                    entries.push((idx, signals[i].1));
                },
                None => {},
            }
            i += 1;
        }
        assert(sv.take(signals@.len() as int) =~= sv);
        let mut sorted: Vec<(usize, i64)> = Vec::new();
        let mut k: usize = 0;
        while k < entries.len()
            invariant
                k <= entries@.len(),
                sorted@ == sort_by_index(entries@.take(k as int)),
            decreases entries.len() - k,
        {
            assert(entries@.take(k + 1).drop_last() =~= entries@.take(k as int));
            insert_sorted_exec(&mut sorted, entries[k]);
            k += 1;
        }
        assert(entries@.take(entries@.len() as int) =~= entries@);
        sorted
    }

    /// Collect all signals in the hierarchy as flat `(full_path, value)` pairs.
    pub fn flatten(&self) -> (r: Vec<(String, i64)>)
        ensures
            pair_views(r@) == self.flattened(),
            forall|e: (Seq<char>, i64)| #[trigger] pair_views(r@).contains(e) <==> self.flat_entry(e),
    {
        proof {
            use_type_invariant(self);
        }
        let mut out: Vec<(String, i64)> = Vec::new();
        let mut m: usize = 0;
        while m < self.nodes.len()
            invariant
                m <= self.nodes@.len(),
                pair_views(out@) == flat_nodes(self.nodes@.take(m as int)),
            decreases self.nodes.len() - m,
        {
            let node = &self.nodes[m];
            let ghost pv = node.path_view();
            let mut prefix: Vec<char> = vec!['m', 'a', 'i', 'n'];
            let mut k: usize = 0;
            proof {
                assert((seq![main_name()] + pv).take(1) =~= seq![main_name()]);
            }
            while k < node.path.len()
                invariant
                    pv == node.path_view(),
                    k <= node.path@.len(),
                    prefix@ == join((seq![main_name()] + pv).take(k + 1), '.'),
                decreases node.path.len() - k,
            {
                prefix.push('.');
                append_chars(&mut prefix, &str_chars(node.path[k].as_str()));
                let ghost all = seq![main_name()] + pv;
                assert(all.take(k + 2).drop_last() =~= all.take(k + 1));
                assert(all.take(k + 2).last() == node.path@[k as int]@);
                k += 1;
            }
            proof {
                assert((seq![main_name()] + pv).take(pv.len() as int + 1) =~= seq![main_name()] + pv);
            }
            let ghost before = pair_views(out@);
            let mut j: usize = 0;
            while j < node.signals.len()
                invariant
                    prefix@ == node_dotted(*node),
                    j <= node.signals@.len(),
                    pair_views(out@) == before + flat_node(*node).take(j as int),
                decreases node.signals.len() - j,
            {
                let mut full = copy_range(&prefix, 0, prefix.len());
                full.push('.');
                append_chars(&mut full, &str_chars(node.signals[j].0.as_str()));
                let ghost o = out@;
                out.push((string_from_chars(&full), node.signals[j].1));
                proof {
                    assert(prefix@.subrange(0, prefix@.len() as int) =~= prefix@);
                    assert(node.signals_view()[j as int] == (
                        node.signals@[j as int].0@,
                        node.signals@[j as int].1,
                    ));
                    assert(full@ =~= node_dotted(*node) + seq!['.'] + node.signals@[j as int].0@);
                    assert(flat_node(*node)[j as int] == (full@, node.signals@[j as int].1));
                    assert(pair_views(out@) =~= pair_views(o).push(
                        (full@, node.signals@[j as int].1),
                    ));
                    assert(flat_node(*node).take(j + 1) =~= flat_node(*node).take(j as int).push(
                        flat_node(*node)[j as int],
                    ));
                }
                j += 1;
            }
            proof {
                assert(flat_node(*node).take(node.signals@.len() as int) =~= flat_node(*node));
                assert(self.nodes@.take(m + 1).drop_last() =~= self.nodes@.take(m as int));
                assert(self.nodes@.take(m + 1).last() == *node);
            }
            m += 1;
        }
        assert(self.nodes@.take(self.nodes@.len() as int) =~= self.nodes@);
        proof {
            use_type_invariant(self);
            lemma_flat_nodes_paths(*self, self.nodes@.len() as int);
            assert(self.paths().take(self.nodes@.len() as int) =~= self.paths());
            let nodes = self.nodes@;
            assert forall|e: (Seq<char>, i64)| #[trigger] pair_views(out@).contains(e) <==> self.flat_entry(e) by {
                lemma_flat_nodes_contains(nodes, e);
                if pair_views(out@).contains(e) {
                    let (i, k) = choose|i: int, k: int|
                        0 <= i < nodes.len() && 0 <= k < nodes[i].signals_view().len() && e == #[trigger] flat_at(
                            nodes,
                            i,
                            k,
                        );
                    let p = nodes[i].path_view();
                    assert(self.has_node(p));
                    lemma_unique_index(nodes, p, i);
                    assert(self.signals_of(p) == nodes[i].signals_view());
                    assert(self.signals_of(p)[k] == nodes[i].signals_view()[k]);
                }
                if self.flat_entry(e) {
                    let (p, k) = choose|p: Seq<Seq<char>>, k: int|
                        #![trigger self.signals_of(p)[k]]
                        self.has_node(p) && 0 <= k < self.signals_of(p).len() && e == (join(
                            seq![main_name()] + p,
                            '.',
                        ) + seq!['.'] + self.signals_of(p)[k].0, self.signals_of(p)[k].1);
                    let i = choose|i: int| 0 <= i < nodes.len() && (#[trigger] nodes[i]).path_view() == p;
                    lemma_unique_index(nodes, p, i);
                    assert(self.signals_of(p) == nodes[i].signals_view());
                    assert(e == flat_at(nodes, i, k));
                }
            }
        }
        out
    }
}

} // verus!

verus! {

// ----- flattening a built hierarchy gives back its signals ---------------------

/// A signal name in its canonical form: `main`, then dotted component
/// names without `[`, then a canonical leaf segment.
pub open spec fn canonical_signal(name: Seq<char>) -> bool {
    let parts = split_on(name, '.');
    &&& parts.len() >= 2
    &&& parts[0] == main_name()
    &&& forall|k: int| 1 <= k < parts.len() - 1 ==> !(#[trigger] parts[k]).contains('[')
    &&& canonical_part(parts.last())
}

/// A signal of the input under the full dotted name that the hierarchy
/// gives it.
pub open spec fn signal_entry(x: (String, i64)) -> (Seq<char>, i64) {
    dotted_entry(sig_container(x.0@), (sig_label(x.0@), x.1))
}

/// The signals of the component paths `ps`, in that order, under their
/// full dotted names, as the hierarchy built from `inp` holds them.
pub open spec fn flat_signals(ps: Seq<Seq<Seq<char>>>, inp: Seq<(String, i64)>) -> Seq<(Seq<char>, i64)>
    decreases ps.len(),
{
    if ps.len() == 0 {
        Seq::empty()
    } else {
        flat_signals(ps.drop_last(), inp) + signals_at(inp, ps.last()).map_values(
            |e: (Seq<char>, i64)| dotted_entry(ps.last(), e),
        )
    }
}

/// The signals of `inp` with valid names, in order, under their full
/// dotted names.
pub open spec fn valid_entries(inp: Seq<(String, i64)>) -> Seq<(Seq<char>, i64)>
    decreases inp.len(),
{
    if inp.len() == 0 {
        Seq::empty()
    } else {
        let r = valid_entries(inp.drop_last());
        if sig_valid(inp.last().0@) {
            r.push(signal_entry(inp.last()))
        } else {
            r
        }
    }
}

proof fn lemma_canonical_part(part: Seq<char>)
    requires
        !part.contains('.'),
        canonical_part(part),
    ensures
        display_component(parse_component(part)) == part,
{
    if !part.contains('[') {
        lemma_find_char_props(part, '[');
        if find_char(part, '[') is Some {
            let i = find_char(part, '[')->Some_0;
            assert(part[i] == '[');
        }
    } else {
        let (b, n) = choose|b: Seq<char>, n: usize|
            !b.contains('[') && part == #[trigger] display_component((b, Some(n)));
        assert(!b.contains('.')) by {
            if b.contains('.') {
                let q = choose|q: int| 0 <= q < b.len() && b[q] == '.';
                assert(part[q] == b[q]);
                assert(part.contains('.'));
            }
        }
        lemma_component_round_trip((b, Some(n)));
    }
}

proof fn lemma_canonical_entry(x: (String, i64))
    requires
        canonical_signal(x.0@),
    ensures
        sig_valid(x.0@),
        signal_entry(x) == (x.0@, x.1),
{
    let name = x.0@;
    let parts = split_on(name, '.');
    let c = parse_path(name);
    crate::text::lemma_join_split(name, '.');
    let n = parts.len() as int;
    assert(!parts[0].contains('[')) by {
        if parts[0].contains('[') {
            let q = choose|q: int| 0 <= q < parts[0].len() && parts[0][q] == '[';
            assert(main_name()[q] == '[');
        }
    }
    lemma_find_char_props(parts[0], '[');
    if find_char(parts[0], '[') is Some {
        let i = find_char(parts[0], '[')->Some_0;
        assert(parts[0][i] == '[');
    }
    assert(c[0] == parse_component(parts[0]));
    assert(path_start(c) == 1);
    let cont = sig_container(name);
    assert forall|k: int| 0 <= k < cont.len() implies #[trigger] cont[k] == parts[k + 1] by {
        let part = parts[k + 1];
        assert(!part.contains('['));
        lemma_find_char_props(part, '[');
        if find_char(part, '[') is Some {
            let i = find_char(part, '[')->Some_0;
            assert(part[i] == '[');
        }
        assert(cont[k] == c[k + 1].0);
    }
    assert(parts[n - 1] == parts.last());
    lemma_canonical_part(parts.last());
    assert(c.last() == parse_component(parts.last()));
    assert(sig_label(name) == parts.last());
    assert(seq![main_name()] + cont =~= parts.drop_last());
    assert(join(parts, '.') == join(parts.drop_last(), '.') + seq!['.'] + parts.last());
}

proof fn lemma_flat_signals_step(ps: Seq<Seq<Seq<char>>>, inp: Seq<(String, i64)>)
    requires
        ps.no_duplicates(),
        inp.len() > 0,
    ensures
        flat_signals(ps, inp).to_multiset() == (if sig_valid(inp.last().0@) && ps.contains(
            sig_container(inp.last().0@),
        ) {
            flat_signals(ps, inp.drop_last()).to_multiset().insert(signal_entry(inp.last()))
        } else {
            flat_signals(ps, inp.drop_last()).to_multiset()
        }),
    decreases ps.len(),
{
    broadcast use vstd::seq_lib::lemma_multiset_commutative;
    let x = inp.last();
    let pre = inp.drop_last();
    if ps.len() == 0 {
        assert(!ps.contains(sig_container(x.0@)));
    } else {
        let init = ps.drop_last();
        let p = ps.last();
        assert(init.no_duplicates());
        lemma_flat_signals_step(init, inp);
        let f = |e: (Seq<char>, i64)| dotted_entry(p, e);
        let a = signals_at(inp, p).map_values(f);
        let b = signals_at(pre, p).map_values(f);
        assert(flat_signals(ps, inp) == flat_signals(init, inp) + a);
        assert(flat_signals(ps, pre) == flat_signals(init, pre) + b);
        if sig_valid(x.0@) && sig_container(x.0@) == p {
            assert(signals_at(inp, p) == signals_at(pre, p).push((sig_label(x.0@), x.1)));
            assert(a =~= b.push(signal_entry(x)));
            b.to_multiset_ensures();
            assert(!init.contains(p)) by {
                if init.contains(p) {
                    let q = choose|q: int| 0 <= q < init.len() && init[q] == p;
                    assert(ps[q] == ps[ps.len() - 1]);
                }
            }
            assert(ps.contains(p)) by {
                assert(ps[ps.len() - 1] == p);
            }
            assert(flat_signals(ps, inp).to_multiset() =~= flat_signals(ps, pre).to_multiset().insert(
                signal_entry(x),
            ));
        } else {
            assert(signals_at(inp, p) == signals_at(pre, p));
            if sig_valid(x.0@) {
                assert(ps.contains(sig_container(x.0@)) <==> init.contains(sig_container(x.0@))) by {
                    if ps.contains(sig_container(x.0@)) {
                        let q = choose|q: int| 0 <= q < ps.len() && ps[q] == sig_container(x.0@);
                        assert(q < ps.len() - 1);
                        assert(init[q] == ps[q]);
                    }
                    if init.contains(sig_container(x.0@)) {
                        let q = choose|q: int| 0 <= q < init.len() && init[q] == sig_container(x.0@);
                        assert(ps[q] == init[q]);
                    }
                }
            }
            if sig_valid(x.0@) && ps.contains(sig_container(x.0@)) {
                assert(flat_signals(ps, inp).to_multiset() =~= flat_signals(ps, pre).to_multiset().insert(
                    signal_entry(x),
                ));
            } else {
                assert(flat_signals(ps, inp).to_multiset() =~= flat_signals(ps, pre).to_multiset());
            }
        }
    }
}

proof fn lemma_flat_signals_all(ps: Seq<Seq<Seq<char>>>, inp: Seq<(String, i64)>)
    requires
        ps.no_duplicates(),
        forall|j: int|
            0 <= j < inp.len() && sig_valid(#[trigger] inp[j].0@) ==> ps.contains(
                sig_container(inp[j].0@),
            ),
    ensures
        flat_signals(ps, inp).to_multiset() == valid_entries(inp).to_multiset(),
    decreases inp.len(),
{
    if inp.len() == 0 {
        assert(flat_signals(ps, inp) =~= Seq::<(Seq<char>, i64)>::empty()) by {
            lemma_flat_signals_empty(ps, inp);
        }
    } else {
        let pre = inp.drop_last();
        assert forall|j: int|
            0 <= j < pre.len() && sig_valid(#[trigger] pre[j].0@) implies ps.contains(
            sig_container(pre[j].0@),
        ) by {
            assert(pre[j] == inp[j]);
        }
        lemma_flat_signals_all(ps, pre);
        lemma_flat_signals_step(ps, inp);
        assert(inp[inp.len() - 1] == inp.last());
        valid_entries(pre).to_multiset_ensures();
    }
}

proof fn lemma_flat_signals_empty(ps: Seq<Seq<Seq<char>>>, inp: Seq<(String, i64)>)
    requires
        inp.len() == 0,
    ensures
        flat_signals(ps, inp) == Seq::<(Seq<char>, i64)>::empty(),
    decreases ps.len(),
{
    if ps.len() > 0 {
        lemma_flat_signals_empty(ps.drop_last(), inp);
        assert(signals_at(inp, ps.last()) == Seq::<(Seq<char>, i64)>::empty());
        assert(flat_signals(ps, inp) =~= Seq::<(Seq<char>, i64)>::empty());
    }
}

proof fn lemma_valid_entries_canonical(inp: Seq<(String, i64)>)
    requires
        forall|j: int| 0 <= j < inp.len() ==> canonical_signal(#[trigger] inp[j].0@),
    ensures
        valid_entries(inp) == pair_views(inp),
    decreases inp.len(),
{
    if inp.len() > 0 {
        let pre = inp.drop_last();
        assert forall|j: int| 0 <= j < pre.len() implies canonical_signal(#[trigger] pre[j].0@) by {
            assert(pre[j] == inp[j]);
        }
        lemma_valid_entries_canonical(pre);
        assert(inp[inp.len() - 1] == inp.last());
        lemma_canonical_entry(inp.last());
        assert(pair_views(inp) =~= pair_views(pre).push((inp.last().0@, inp.last().1)));
    } else {
        assert(pair_views(inp) =~= Seq::<(Seq<char>, i64)>::empty());
    }
}

proof fn lemma_flat_of_signals(h: SignalHierarchy, ps: Seq<Seq<Seq<char>>>, inp: Seq<(String, i64)>)
    requires
        forall|p: Seq<Seq<char>>| #[trigger] h.signals_of(p) == signals_at(inp, p),
    ensures
        h.flat_of(ps) == flat_signals(ps, inp),
    decreases ps.len(),
{
    if ps.len() > 0 {
        lemma_flat_of_signals(h, ps.drop_last(), inp);
        assert(h.signals_of(ps.last()) == signals_at(inp, ps.last()));
    }
}

/// Flattening a hierarchy built from `signals` gives back exactly those
/// signals, each as often as it was given, when every signal name is in
/// canonical form.
pub proof fn lemma_flatten_built(signals: Seq<(String, i64)>, h: SignalHierarchy)
    requires
        h.valid(),
        forall|p: Seq<Seq<char>>| h.has_node(p) <==> (p.len() == 0 || is_component_of(signals, p)),
        forall|p: Seq<Seq<char>>| #[trigger] h.signals_of(p) == signals_at(signals, p),
        forall|j: int| 0 <= j < signals.len() ==> canonical_signal(#[trigger] signals[j].0@),
    ensures
        h.flattened().to_multiset() == pair_views(signals).to_multiset(),
{
    let ps = h.paths();
    reveal(nodes_wf);
    assert(ps.no_duplicates()) by {
        assert forall|i: int, j: int| 0 <= i < ps.len() && 0 <= j < ps.len() && i != j implies ps[i]
            != ps[j] by {
            assert(ps[i] == h.nodes@[i].path_view());
            assert(ps[j] == h.nodes@[j].path_view());
        }
    }
    assert forall|j: int| 0 <= j < signals.len() && sig_valid(#[trigger] signals[j].0@) implies ps.contains(
        sig_container(signals[j].0@),
    ) by {
        let c = sig_container(signals[j].0@);
        if c.len() > 0 {
            assert(c.take(c.len() as int) =~= c);
            assert(is_component_of(signals, c));
        }
        assert(h.has_node(c));
        let m = choose|m: int| 0 <= m < h.nodes@.len() && (#[trigger] h.nodes@[m]).path_view() == c;
        assert(ps[m] == c);
    }
    lemma_flat_of_signals(h, ps, signals);
    lemma_flat_signals_all(ps, signals);
    lemma_valid_entries_canonical(signals);
}

} // verus!

verus! {

// ----- which labels are elements of an array ---------------------------------------------

/// A label is an element of the array `base` only where it is `base`
/// itself followed by `[`, and `base` holds no `[`: a name that merely
/// begins with `base` never counts.
pub proof fn lemma_array_index_base(label: Seq<char>, base: Seq<char>)
    ensures
        array_index(label, base) is Some ==> label.len() > base.len() && label.take(base.len() as int)
            == base && label[base.len() as int] == '[' && !base.contains('['),
{
    lemma_find_char_props(label, '[');
    match find_char(label, '[') {
        Some(p) => {
            if label.take(p) == base {
                assert(label.take(p).len() == p);
                assert(!base.contains('[')) by {
                    if base.contains('[') {
                        let q = choose|q: int| 0 <= q < base.len() && base[q] == '[';
                        assert(label[q] == base[q]);
                    }
                }
            }
        },
        None => {},
    }
}

/// `base[n]`, with `n` in plain decimal, is element `n` of the array
/// `base`.
pub proof fn lemma_array_index_element(base: Seq<char>, n: usize)
    requires
        plain_name(base),
    ensures
        array_index(display_component((base, Some(n))), base) == Some(n),
{
    let label = display_component((base, Some(n)));
    lemma_component_round_trip((base, Some(n)));
    lemma_find_char_props(label, '[');
}

proof fn lemma_array_entries_source(sigs: Seq<(Seq<char>, i64)>, base: Seq<char>)
    ensures
        forall|q: int|
            0 <= q < array_entries(sigs, base).len() ==> exists|j: int|
                0 <= j < sigs.len() && array_index(sigs[j].0, base) == Some(
                    (#[trigger] array_entries(sigs, base)[q]).0,
                ) && sigs[j].1 == array_entries(sigs, base)[q].1,
    decreases sigs.len(),
{
    if sigs.len() > 0 {
        let pre = sigs.drop_last();
        lemma_array_entries_source(pre, base);
        let rest = array_entries(pre, base);
        let all = array_entries(sigs, base);
        assert forall|q: int| 0 <= q < all.len() implies exists|j: int|
            0 <= j < sigs.len() && array_index(sigs[j].0, base) == Some((#[trigger] all[q]).0)
                && sigs[j].1 == all[q].1 by {
            if q < rest.len() {
                assert(all[q] == rest[q]);
                let j = choose|j: int|
                    0 <= j < pre.len() && array_index(pre[j].0, base) == Some((#[trigger] rest[q]).0)
                        && pre[j].1 == rest[q].1;
                assert(sigs[j] == pre[j]);
            } else {
                assert(sigs[sigs.len() - 1] == sigs.last());
            }
        }
    }
}

/// Every `(index, value)` pair that the sorted array entries give for base
/// name `base` (what `get_array_signals` returns) comes from a signal whose
/// label is `base` itself followed by `[`, with that value.
pub proof fn lemma_array_signals_base(sigs: Seq<(Seq<char>, i64)>, base: Seq<char>)
    ensures
        forall|q: int|
            0 <= q < sort_by_index(array_entries(sigs, base)).len() ==> exists|j: int|
                0 <= j < sigs.len() && sigs[j].1 == (#[trigger] sort_by_index(
                    array_entries(sigs, base),
                )[q]).1 && sigs[j].0.len() > base.len() && sigs[j].0.take(base.len() as int) == base
                    && sigs[j].0[base.len() as int] == '[',
{
    broadcast use vstd::seq_lib::group_to_multiset_ensures;

    let ents = array_entries(sigs, base);
    let sorted = sort_by_index(ents);
    lemma_sort_by_index(ents);
    lemma_array_entries_source(sigs, base);
    assert forall|q: int| 0 <= q < sorted.len() implies exists|j: int|
        0 <= j < sigs.len() && sigs[j].1 == (#[trigger] sorted[q]).1 && sigs[j].0.len() > base.len()
            && sigs[j].0.take(base.len() as int) == base && sigs[j].0[base.len() as int] == '[' by {
        let e = sorted[q];
        assert(sorted.contains(e));
        assert(sorted.to_multiset().count(e) > 0);
        assert(ents.to_multiset().count(e) > 0);
        assert(ents.contains(e));
        let q2 = choose|q2: int| 0 <= q2 < ents.len() && ents[q2] == e;
        let j = choose|j: int|
            0 <= j < sigs.len() && array_index(sigs[j].0, base) == Some((#[trigger] ents[q2]).0)
                && sigs[j].1 == ents[q2].1;
        lemma_array_index_base(sigs[j].0, base);
    }
}

} // verus!
