//! Export helpers: the export formats and their file names, CSV field
//! quoting, and the "collapsed stacks" text that flame-graph tools read.

use vstd::prelude::*;
use vstd::string::{StringExecFns, StrSliceExecFns};
use crate::calltree::CallTreeNode;
use crate::text::{decimal, u64_to_decimal};

verus! {

/// The supported export formats.
#[derive(Clone, Copy, PartialEq, Eq, Structural, Debug)]
pub enum ExportFormat {
    ChromeTrace,
    SpeedScope,
    CollapsedStacks,
    Csv,
}

impl ExportFormat {
    /// The file name an export in this format is written to by default.
    pub fn default_extension(self) -> (r: &'static str)
        ensures
            self == ExportFormat::ChromeTrace ==> r@ == "chrome_trace.json"@,
            self == ExportFormat::SpeedScope ==> r@ == "speedscope.json"@,
            self == ExportFormat::CollapsedStacks ==> r@ == "stacks.txt"@,
            self == ExportFormat::Csv ==> r@ == "profile.csv"@,
    {
        match self {
            ExportFormat::ChromeTrace => "chrome_trace.json",
            ExportFormat::SpeedScope => "speedscope.json",
            ExportFormat::CollapsedStacks => "stacks.txt",
            ExportFormat::Csv => "profile.csv",
        }
    }
}

/// Whether a count is zero (such fields are left out of reports).
pub fn is_zero(v: &u64) -> (r: bool)
    ensures
        r == (*v == 0),
{
    *v == 0
}

// ─── CSV ────────────────────────────────────────────────────────────────────

/// A CSV field must be quoted when it holds a comma, a quote or a newline.
pub open spec fn needs_quoting(s: Seq<char>) -> bool {
    s.contains(',') || s.contains('"') || s.contains('\n')
}

/// `s` with every quote doubled.
pub open spec fn double_quotes(s: Seq<char>) -> Seq<char>
    decreases s.len(),
{
    if s.len() == 0 {
        Seq::empty()
    } else {
        double_quotes(s.drop_last()) + if s.last() == '"' {
            seq!['"', '"']
        } else {
            seq![s.last()]
        }
    }
}

/// `s` as a CSV field.
pub open spec fn csv_field(s: Seq<char>) -> Seq<char> {
    if needs_quoting(s) {
        seq!['"'] + double_quotes(s) + seq!['"']
    } else {
        s
    }
}

/// `s` as a CSV field: quoted, with its quotes doubled, when it holds a
/// comma, a quote or a newline; unchanged otherwise.
pub fn csv_esc(s: &str) -> (r: String)
    ensures
        r@ == csv_field(s@),
{
    let n = s.unicode_len();
    let mut needs = false;
    let mut doubled = String::from_str("");
    proof {
        reveal_strlit("");
    }
    let mut i: usize = 0;
    while i < n
        invariant
            n == s@.len(),
            i <= n,
            doubled@ == double_quotes(s@.take(i as int)),
            needs == needs_quoting(s@.take(i as int)),
        decreases n - i,
    {
        let c = s.get_char(i);
        proof {
            let t = s@.take(i + 1);
            assert(t.drop_last() =~= s@.take(i as int));
            assert(t.last() == c);
            assert(t.contains(',') == (s@.take(i as int).contains(',') || c == ',')) by {
                if t.contains(',') && c != ',' {
                    let k = choose|k: int| 0 <= k < t.len() && t[k] == ',';
                    assert(s@.take(i as int)[k] == ',');
                }
                if s@.take(i as int).contains(',') {
                    let k = choose|k: int| 0 <= k < i && s@.take(i as int)[k] == ',';
                    assert(t[k] == ',');
                }
            }
            assert(t.contains('"') == (s@.take(i as int).contains('"') || c == '"')) by {
                if t.contains('"') && c != '"' {
                    let k = choose|k: int| 0 <= k < t.len() && t[k] == '"';
                    assert(s@.take(i as int)[k] == '"');
                }
                if s@.take(i as int).contains('"') {
                    let k = choose|k: int| 0 <= k < i && s@.take(i as int)[k] == '"';
                    assert(t[k] == '"');
                }
            }
            assert(t.contains('\n') == (s@.take(i as int).contains('\n') || c == '\n')) by {
                if t.contains('\n') && c != '\n' {
                    let k = choose|k: int| 0 <= k < t.len() && t[k] == '\n';
                    assert(s@.take(i as int)[k] == '\n');
                }
                if s@.take(i as int).contains('\n') {
                    let k = choose|k: int| 0 <= k < i && s@.take(i as int)[k] == '\n';
                    assert(t[k] == '\n');
                }
            }
        }
        if c == ',' || c == '"' || c == '\n' {
            needs = true;
        }
        let ghost before = doubled@;
        if c == '"' {
            doubled.push('"');
            doubled.push('"');
            assert(doubled@ =~= before + seq!['"', '"']);
        } else {
            doubled.push(c);
            assert(doubled@ =~= before + seq![c]);
        }
        i = i + 1;
    }
    assert(s@.take(n as int) =~= s@);
    if needs {
        let mut r = String::from_str("");
        proof {
            reveal_strlit("");
        }
        r.push('"');
        r.append(doubled.as_str());
        r.push('"');
        assert(r@ =~= seq!['"'] + double_quotes(s@) + seq!['"']);
        r
    } else {
        String::from_str(s)
    }
}

// ─── collapsed stacks ───────────────────────────────────────────────────────

/// The frame path of a node below the path `prefix` of its caller (empty
/// for a root): the names from the root down, joined by semicolons.
pub open spec fn extend_path(prefix: Seq<char>, name: Seq<char>) -> Seq<char> {
    if prefix.len() == 0 {
        name
    } else {
        prefix + seq![';'] + name
    }
}

/// The lines a call tree contributes: one per leaf, its frame path, a
/// space and the leaf's duration in nanoseconds.
pub open spec fn tree_lines(node: CallTreeNode, prefix: Seq<char>) -> Seq<Seq<char>>
    decreases node, 1int, 0int,
{
    let path = extend_path(prefix, node.name@);
    if node.children@.len() == 0 {
        seq![path + seq![' '] + decimal(node.duration_ns as nat)]
    } else {
        children_lines(node, path, node.children@.len() as int)
    }
}

/// The lines of the first `n` children of `parent`, whose path is `path`.
pub open spec fn children_lines(parent: CallTreeNode, path: Seq<char>, n: int) -> Seq<Seq<char>>
    decreases parent, 0int, n,
{
    if n <= 0 || n > parent.children@.len() {
        Seq::empty()
    } else {
        proof {
            assert(decreases_to!(parent => parent.children));
            assert(decreases_to!(parent.children => parent.children@));
            assert(decreases_to!(parent.children@ => parent.children@[n - 1]));
        }
        children_lines(parent, path, n - 1) + tree_lines(parent.children@[n - 1], path)
    }
}

/// `lines` joined with newlines.
pub open spec fn join_lines(lines: Seq<Seq<char>>) -> Seq<char>
    decreases lines.len(),
{
    if lines.len() == 0 {
        Seq::empty()
    } else if lines.len() == 1 {
        lines[0]
    } else {
        join_lines(lines.drop_last()) + seq!['\n'] + lines.last()
    }
}

/// The lines of a forest of call trees, tree by tree.
pub open spec fn forest_lines(roots: Seq<CallTreeNode>) -> Seq<Seq<char>>
    decreases roots.len(),
{
    if roots.len() == 0 {
        Seq::empty()
    } else {
        forest_lines(roots.drop_last()) + tree_lines(roots.last(), Seq::empty())
    }
}

/// One line per function, its name, a space and its self time.
pub open spec fn flat_lines(flat: Seq<(String, u64)>) -> Seq<Seq<char>>
    decreases flat.len(),
{
    if flat.len() == 0 {
        Seq::empty()
    } else {
        flat_lines(flat.drop_last()).push(
            flat.last().0@ + seq![' '] + decimal(flat.last().1 as nat),
        )
    }
}

fn path_of(prefix: &String, name: &String) -> (r: String)
    ensures
        r@ == extend_path(prefix@, name@),
{
    if prefix.as_str().is_empty() {
        name.clone()
    } else {
        let mut r = prefix.clone();
        r.push(';');
        r.append(name.as_str());
        r
    }
}

fn leaf_line(path: &String, ns: u64) -> (r: String)
    ensures
        r@ == path@ + seq![' '] + decimal(ns as nat),
{
    let mut r = path.clone();
    r.push(' ');
    let d = u64_to_decimal(ns);
    r.append(d.as_str());
    r
}

fn walk(node: &CallTreeNode, prefix: &String, lines: &mut Vec<String>)
    ensures
        final(lines)@.map_values(|l: String| l@) == old(lines)@.map_values(|l: String| l@)
            + tree_lines(*node, prefix@),
    decreases *node, 1int, 0int,
{
    let path = path_of(prefix, &node.name);
    if node.children.len() == 0 {
        let ghost before = lines@;
        lines.push(leaf_line(&path, node.duration_ns));
        assert(lines@.map_values(|l: String| l@) =~= before.map_values(|l: String| l@) + seq![
            path@ + seq![' '] + decimal(node.duration_ns as nat),
        ]);
    } else {
        walk_children(node, &path, lines);
    }
}

fn walk_children(node: &CallTreeNode, path: &String, lines: &mut Vec<String>)
    ensures
        final(lines)@.map_values(|l: String| l@) == old(lines)@.map_values(|l: String| l@)
            + children_lines(*node, path@, node.children@.len() as int),
    decreases *node, 0int, 0int,
{
    let ghost start = lines@.map_values(|l: String| l@);
    let mut i: usize = 0;
    while i < node.children.len()
        invariant
            i <= node.children@.len(),
            lines@.map_values(|l: String| l@) == start + children_lines(*node, path@, i as int),
        decreases node.children@.len() - i,
    {
        proof {
            assert(decreases_to!(*node => node.children));
            assert(decreases_to!(node.children => node.children@));
            assert(decreases_to!(node.children@ => node.children@[i as int]));
        }
        walk(&node.children[i], path, lines);
        i = i + 1;
        assert(lines@.map_values(|l: String| l@) =~= start + children_lines(
            *node,
            path@,
            i as int,
        ));
    }
}

/// The collapsed-stacks text: for every leaf of every call tree, its frame
/// path and its duration; then, for every function, its name and its self
/// time. Lines are separated by newlines.
pub fn to_collapsed_stacks(call_trees: &Vec<CallTreeNode>, functions: &Vec<(String, u64)>) -> (r:
    String)
    ensures
        r@ == join_lines(forest_lines(call_trees@) + flat_lines(functions@)),
{
    let mut lines: Vec<String> = Vec::new();
    let empty = String::from_str("");
    proof {
        reveal_strlit("");
    }
    let mut i: usize = 0;
    while i < call_trees.len()
        invariant
            i <= call_trees@.len(),
            empty@ == Seq::<char>::empty(),
            lines@.map_values(|l: String| l@) == forest_lines(call_trees@.take(i as int)),
        decreases call_trees@.len() - i,
    {
        proof {
            assert(call_trees@.take(i + 1).drop_last() =~= call_trees@.take(i as int));
        }
        walk(&call_trees[i], &empty, &mut lines);
        i = i + 1;
    }
    assert(call_trees@.take(call_trees@.len() as int) =~= call_trees@);
    let ghost trees = lines@.map_values(|l: String| l@);
    let mut j: usize = 0;
    while j < functions.len()
        invariant
            j <= functions@.len(),
            trees == forest_lines(call_trees@),
            lines@.map_values(|l: String| l@) == trees + flat_lines(functions@.take(j as int)),
        decreases functions@.len() - j,
    {
        proof {
            assert(functions@.take(j + 1).drop_last() =~= functions@.take(j as int));
            assert(functions@.take(j + 1).last() == functions@[j as int]);
        }
        let ghost before = lines@;
        let line = leaf_line(&functions[j].0, functions[j].1);
        let ghost lv = line@;
        assert(lv == functions@.take(j + 1).last().0@ + seq![' '] + decimal(
            functions@.take(j + 1).last().1 as nat,
        ));
        lines.push(line);
        assert(lines@.map_values(|l: String| l@) =~= before.map_values(|l: String| l@).push(lv));
        assert(flat_lines(functions@.take(j + 1)) == flat_lines(functions@.take(j as int)).push(lv));
        j = j + 1;
        assert(lines@.map_values(|l: String| l@) =~= trees + flat_lines(functions@.take(j as int)));
    }
    assert(functions@.take(functions@.len() as int) =~= functions@);
    join(&lines)
}

/// `lines` joined with newlines.
pub fn join(lines: &Vec<String>) -> (r: String)
    ensures
        r@ == join_lines(lines@.map_values(|l: String| l@)),
{
    let ghost ls = lines@.map_values(|l: String| l@);
    let mut r = String::from_str("");
    proof {
        reveal_strlit("");
    }
    let mut i: usize = 0;
    while i < lines.len()
        invariant
            i <= lines@.len(),
            ls == lines@.map_values(|l: String| l@),
            r@ == join_lines(ls.take(i as int)),
        decreases lines@.len() - i,
    {
        proof {
            assert(ls.take(i + 1).drop_last() =~= ls.take(i as int));
            assert(ls[i as int] == lines@[i as int]@);
        }
        if i > 0 {
            r.push('\n');
        }
        r.append(lines[i].as_str());
        i = i + 1;
        proof {
            if i == 1 {
                assert(ls.take(1) =~= seq![ls[0]]);
            }
        }
    }
    assert(ls.take(lines@.len() as int) =~= ls);
    r
}

// ─── JSON writing options ───────────────────────────────────────────────────

/// How a session is written as JSON.
#[derive(Clone, Copy, PartialEq, Eq, Structural, Debug)]
pub struct WriteOptions {
    /// Pretty-print with indentation.
    pub pretty: bool,
    /// Append one line to the file instead of replacing it.
    pub append: bool,
    /// Include the raw per-iteration timing samples of benchmarks.
    pub include_raw_samples: bool,
}

impl Default for WriteOptions {
    fn default() -> (o: Self)
        ensures
            o.pretty && !o.append && o.include_raw_samples,
    {
        WriteOptions { pretty: true, append: false, include_raw_samples: true }
    }
}


// ─── speedscope ─────────────────────────────────────────────────────────────

/// A sampled profile built from call trees: a table of frames and, for
/// every leaf call, the stack of frame numbers from the root down and the
/// leaf's duration.
pub struct SpeedscopeProfile {
    /// Name, file and line of each frame, in order of first use.
    pub frames: Vec<(String, String, u32)>,
    /// `name:file:line` of each frame, under which it is found again.
    pub keys: Vec<String>,
    pub samples: Vec<Vec<usize>>,
    pub weights: Vec<u64>,
}

/// What the specification tracks of a profile being built.
pub struct SpeedState {
    pub keys: Seq<Seq<char>>,
    pub frames: Seq<(Seq<char>, Seq<char>, u32)>,
    pub samples: Seq<Seq<usize>>,
    pub weights: Seq<u64>,
}

/// The key a frame is found again under.
pub open spec fn frame_key(name: Seq<char>, file: Seq<char>, line: u32) -> Seq<char> {
    name + seq![':'] + file + seq![':'] + decimal(line as nat)
}

/// The frame number of a node, adding the frame at the end if its key is
/// new.
pub open spec fn intern_frame(st: SpeedState, node: CallTreeNode) -> (SpeedState, int) {
    let k = frame_key(node.name@, node.file@, node.line);
    if st.keys.contains(k) {
        (st, st.keys.index_of(k))
    } else {
        (
            SpeedState {
                keys: st.keys.push(k),
                frames: st.frames.push((node.name@, node.file@, node.line)),
                ..st
            },
            st.keys.len() as int,
        )
    }
}

/// The profile after walking the tree of `node`, the frames above it being
/// `stack`.
pub open spec fn speed_walk(st: SpeedState, node: CallTreeNode, stack: Seq<usize>) -> SpeedState
    decreases node, 1int, 0int,
{
    let (st1, fi) = intern_frame(st, node);
    let s2 = stack.push(fi as usize);
    if node.children@.len() == 0 {
        SpeedState {
            samples: st1.samples.push(s2),
            weights: st1.weights.push(node.duration_ns),
            ..st1
        }
    } else {
        speed_children(st1, node, s2, node.children@.len() as int)
    }
}

/// The profile after walking the first `n` children of `parent`.
pub open spec fn speed_children(st: SpeedState, parent: CallTreeNode, stack: Seq<usize>, n: int) -> SpeedState
    decreases parent, 0int, n,
{
    if n <= 0 || n > parent.children@.len() {
        st
    } else {
        proof {
            assert(decreases_to!(parent => parent.children));
            assert(decreases_to!(parent.children => parent.children@));
            assert(decreases_to!(parent.children@ => parent.children@[n - 1]));
        }
        speed_walk(speed_children(st, parent, stack, n - 1), parent.children@[n - 1], stack)
    }
}

/// The profile of a forest, tree by tree.
pub open spec fn speed_forest(st: SpeedState, roots: Seq<CallTreeNode>) -> SpeedState
    decreases roots.len(),
{
    if roots.len() == 0 {
        st
    } else {
        speed_walk(speed_forest(st, roots.drop_last()), roots.last(), Seq::empty())
    }
}

pub open spec fn empty_speed() -> SpeedState {
    SpeedState {
        keys: Seq::empty(),
        frames: Seq::empty(),
        samples: Seq::empty(),
        weights: Seq::empty(),
    }
}

impl SpeedscopeProfile {
    /// One key per frame, no key twice.
    pub open spec fn wf(&self) -> bool {
        &&& self.keys@.len() == self.frames@.len()
        &&& self.state().keys.no_duplicates()
    }

    pub open spec fn state(&self) -> SpeedState {
        SpeedState {
            keys: self.keys@.map_values(|k: String| k@),
            frames: self.frames@.map_values(|f: (String, String, u32)| (f.0@, f.1@, f.2)),
            samples: self.samples@.map_values(|v: Vec<usize>| v@),
            weights: self.weights@,
        }
    }
}

fn key_string(name: &String, file: &String, line: u32) -> (r: String)
    ensures
        r@ == frame_key(name@, file@, line),
{
    let mut r = name.clone();
    r.push(':');
    r.append(file.as_str());
    r.push(':');
    let d = u64_to_decimal(line as u64);
    r.append(d.as_str());
    r
}

fn intern(p: &mut SpeedscopeProfile, node: &CallTreeNode) -> (fi: usize)
    requires
        old(p).wf(),
    ensures
        final(p).wf(),
        (final(p).state(), fi as int) == intern_frame(old(p).state(), *node),
{
    let ghost st = p.state();
    let k = key_string(&node.name, &node.file, node.line);
    let mut i: usize = 0;
    while i < p.keys.len()
        invariant
            i <= p.keys@.len(),
            p.wf(),
            st == p.state(),
            k@ == frame_key(node.name@, node.file@, node.line),
            forall|j: int| 0 <= j < i ==> st.keys[j] != k@,
        decreases p.keys@.len() - i,
    {
        assert(st.keys[i as int] == p.keys@[i as int]@);
        if p.keys[i] == k {
            proof {
                assert(st.keys.contains(k@));
                assert(st.keys.index_of(k@) == i as int) by {
                    let c = st.keys.index_of(k@);
                    assert(st.keys[c] == k@);
                }
            }
            return i;
        }
        i = i + 1;
    }
    let n = p.keys.len();
    p.keys.push(k);
    p.frames.push((node.name.clone(), node.file.clone(), node.line));
    proof {
        assert(!st.keys.contains(frame_key(node.name@, node.file@, node.line)));
        assert(p.state().keys =~= st.keys.push(frame_key(node.name@, node.file@, node.line)));
        assert(p.state().frames =~= st.frames.push((node.name@, node.file@, node.line)));
        let ks = p.state().keys;
        assert forall|a: int, b: int| 0 <= a < ks.len() && 0 <= b < ks.len() && a != b implies ks[a]
            != ks[b] by {
            if a < st.keys.len() && b == st.keys.len() {
                assert(st.keys.contains(ks[a]));
            } else if b < st.keys.len() && a == st.keys.len() {
                assert(st.keys.contains(ks[b]));
            }
        }
    }
    n
}

fn speed_node(p: &mut SpeedscopeProfile, node: &CallTreeNode, stack: &mut Vec<usize>)
    requires
        old(p).wf(),
    ensures
        final(p).wf(),
        final(p).state() == speed_walk(old(p).state(), *node, old(stack)@),
        final(stack)@ == old(stack)@,
    decreases *node, 1int, 0int,
{
    let fi = intern(p, node);
    stack.push(fi);
    if node.children.len() == 0 {
        let ghost st = p.state();
        p.samples.push(stack.clone());
        p.weights.push(node.duration_ns);
        assert(p.state().samples =~= st.samples.push(stack@));
    } else {
        speed_kids(p, node, stack);
    }
    stack.pop();
}

fn speed_kids(p: &mut SpeedscopeProfile, node: &CallTreeNode, stack: &mut Vec<usize>)
    requires
        old(p).wf(),
    ensures
        final(p).wf(),
        final(p).state() == speed_children(
            old(p).state(),
            *node,
            old(stack)@,
            node.children@.len() as int,
        ),
        final(stack)@ == old(stack)@,
    decreases *node, 0int, 0int,
{
    let ghost st0 = p.state();
    let ghost stk = stack@;
    let mut i: usize = 0;
    while i < node.children.len()
        invariant
            i <= node.children@.len(),
            p.wf(),
            stack@ == stk,
            p.state() == speed_children(st0, *node, stk, i as int),
        decreases node.children@.len() - i,
    {
        proof {
            assert(decreases_to!(*node => node.children));
            assert(decreases_to!(node.children => node.children@));
            assert(decreases_to!(node.children@ => node.children@[i as int]));
        }
        speed_node(p, &node.children[i], stack);
        i = i + 1;
    }
}

/// The sampled profile of a forest of call trees: frames are shared by
/// their `name:file:line`, and every leaf call contributes its stack and
/// its duration.
pub fn to_speedscope(call_trees: &Vec<CallTreeNode>) -> (r: SpeedscopeProfile)
    ensures
        r.wf(),
        r.state() == speed_forest(empty_speed(), call_trees@),
{
    let mut p = SpeedscopeProfile {
        frames: Vec::new(),
        keys: Vec::new(),
        samples: Vec::new(),
        weights: Vec::new(),
    };
    assert(p.state().keys =~= Seq::<Seq<char>>::empty());
    assert(p.state() =~= empty_speed()) by {
        assert(p.state().keys =~= Seq::<Seq<char>>::empty());
        assert(p.state().frames =~= Seq::<(Seq<char>, Seq<char>, u32)>::empty());
        assert(p.state().samples =~= Seq::<Seq<usize>>::empty());
    }
    let mut i: usize = 0;
    while i < call_trees.len()
        invariant
            i <= call_trees@.len(),
            p.wf(),
            p.state() == speed_forest(empty_speed(), call_trees@.take(i as int)),
        decreases call_trees@.len() - i,
    {
        proof {
            assert(call_trees@.take(i + 1).drop_last() =~= call_trees@.take(i as int));
        }
        let mut stack: Vec<usize> = Vec::new();
        speed_node(&mut p, &call_trees[i], &mut stack);
        i = i + 1;
    }
    assert(call_trees@.take(call_trees@.len() as int) =~= call_trees@);
    p
}

} // verus!
