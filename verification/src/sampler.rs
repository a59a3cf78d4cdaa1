//! Stack-sample accounting for an external sampler (`perf script` or the
//! macOS `sample` tool): reading their text output into per-symbol sample
//! counts, grouping symbols into crates and modules, and the symbol-quality
//! totals.

use vstd::prelude::*;
use vstd::string::StringExecFns;
use crate::memory::{wrap_add, add_wrapping, sat_sub};
use crate::scan::{
    lines_of, tokens, trimmed, has_sub, parse_u64_spec, join_spaced, unicode_numeric,
    lines, split_whitespace, trim, contains_seq, parse_u64, string_of, is_numeric,
};
use crate::text::chars_of;

verus! {

// ─── symbol names ───────────────────────────────────────────────────────────

/// The first whitespace-separated token of `s`, or `s` itself when it has
/// none.
pub open spec fn first_token(s: Seq<char>) -> Seq<char> {
    if tokens(s).len() > 0 {
        tokens(s)[0]
    } else {
        s
    }
}

pub open spec fn is_angle(c: char) -> bool {
    c == '<' || c == '>'
}

/// The number of leading angle brackets of `s`.
pub open spec fn lead_angles(s: Seq<char>) -> nat
    decreases s.len(),
{
    if s.len() > 0 && is_angle(s[0]) {
        1 + lead_angles(s.drop_first())
    } else {
        0
    }
}

/// The number of trailing angle brackets of `s`.
pub open spec fn trail_angles(s: Seq<char>) -> nat
    decreases s.len(),
{
    if s.len() > 0 && is_angle(s.last()) {
        1 + trail_angles(s.drop_last())
    } else {
        0
    }
}

/// `s` without leading and trailing angle brackets.
pub open spec fn strip_angles(s: Seq<char>) -> Seq<char> {
    let a = lead_angles(s) as int;
    if a == s.len() {
        Seq::empty()
    } else {
        s.subrange(a, s.len() - trail_angles(s))
    }
}

/// The symbol a frame name stands for: its first token, without angle
/// brackets around it.
pub open spec fn cleaned(name: Seq<char>) -> Seq<char> {
    strip_angles(first_token(name))
}

/// The position of the first `::` in `s`, if any.
pub open spec fn first_dc(s: Seq<char>) -> Option<int>
    decreases s.len(),
{
    if s.len() < 2 {
        None
    } else if s[0] == ':' && s[1] == ':' {
        Some(0)
    } else {
        match first_dc(s.drop_first()) {
            Some(i) => Some(i + 1),
            None => None,
        }
    }
}

/// The pieces of `s` between `::` separators, as `str::split("::")` gives
/// them (left to right, never overlapping).
pub open spec fn split_dc(s: Seq<char>) -> Seq<Seq<char>>
    decreases s.len(),
{
    match first_dc(s) {
        Some(i) => if 0 <= i && i + 2 <= s.len() {
            seq![s.take(i)] + split_dc(s.skip(i + 2))
        } else {
            seq![s]
        },
        None => seq![s],
    }
}

/// `s` up to its first `::`.
pub open spec fn before_dc(s: Seq<char>) -> Seq<char> {
    match first_dc(s) {
        Some(i) => s.take(i),
        None => s,
    }
}

proof fn lemma_first_dc_bounds(s: Seq<char>)
    ensures
        first_dc(s) matches Some(i) ==> 0 <= i && i + 2 <= s.len() && s[i] == ':' && s[i + 1]
            == ':' && forall|k: int| 0 <= k < i ==> !(#[trigger] s[k] == ':' && s[k + 1] == ':'),
        first_dc(s) is None ==> forall|k: int|
            0 <= k < s.len() - 1 ==> !(#[trigger] s[k] == ':' && s[k + 1] == ':'),
    decreases s.len(),
{
    if s.len() >= 2 && !(s[0] == ':' && s[1] == ':') {
        let t = s.drop_first();
        lemma_first_dc_bounds(t);
        match first_dc(t) {
            Some(j) => {
                assert forall|k: int| 0 <= k < j + 1 implies !(#[trigger] s[k] == ':' && s[k + 1]
                    == ':') by {
                    if k > 0 {
                        assert(s[k] == t[k - 1]);
                        assert(s[k + 1] == t[k]);
                    }
                }
                assert(s[j + 1] == t[j] && s[j + 2] == t[j + 1]);
            },
            None => {
                assert forall|k: int| 0 <= k < s.len() - 1 implies !(#[trigger] s[k] == ':' && s[k
                    + 1] == ':') by {
                    if k > 0 {
                        assert(s[k] == t[k - 1]);
                        assert(s[k + 1] == t[k]);
                    }
                }
            },
        }
    }
}

/// The leftmost `::` of `s` at or after `from`, found by scanning.
fn find_dc(s: &Vec<char>, from: usize) -> (r: Option<usize>)
    requires
        from <= s@.len(),
    ensures
        first_dc(s@.skip(from as int)) matches Some(j) ==> (r matches Some(k) && k == from + j),
        first_dc(s@.skip(from as int)) is None ==> r is None,
{
    let n = s.len();
    let mut i: usize = from;
    while n - i > 1
        invariant
            from <= i <= n,
            n == s@.len(),
            forall|k: int| from <= k < i ==> !(#[trigger] s@[k] == ':' && s@[k + 1] == ':'),
        decreases n - i,
    {
        if s[i] == ':' && s[i + 1] == ':' {
            proof {
                let t = s@.skip(from as int);
                assert forall|k: int| 0 <= k < i - from implies !(#[trigger] t[k] == ':' && t[k + 1]
                    == ':') by {
                    assert(t[k] == s@[from + k] && t[k + 1] == s@[from + k + 1]);
                }
                lemma_first_dc_is(t, i - from);
            }
            return Some(i);
        }
        i = i + 1;
    }
    proof {
        let t = s@.skip(from as int);
        lemma_first_dc_bounds(t);
        if first_dc(t) is Some {
            let j = first_dc(t)->0;
            assert(t[j] == s@[from + j] && t[j + 1] == s@[from + j + 1]);
        }
    }
    None
}

proof fn lemma_first_dc_is(s: Seq<char>, i: int)
    requires
        0 <= i && i + 1 < s.len(),
        s[i] == ':' && s[i + 1] == ':',
        forall|k: int| 0 <= k < i ==> !(#[trigger] s[k] == ':' && s[k + 1] == ':'),
    ensures
        first_dc(s) == Some(i),
    decreases i,
{
    if i > 0 {
        let t = s.drop_first();
        assert forall|k: int| 0 <= k < i - 1 implies !(#[trigger] t[k] == ':' && t[k + 1] == ':') by {
            assert(t[k] == s[k + 1] && t[k + 1] == s[k + 2]);
        }
        assert(!(s[0] == ':' && s[1] == ':'));
        lemma_first_dc_is(t, i - 1);
    }
}

fn subvec(s: &Vec<char>, a: usize, b: usize) -> (r: Vec<char>)
    requires
        a <= b <= s@.len(),
    ensures
        r@ == s@.subrange(a as int, b as int),
{
    let mut out: Vec<char> = Vec::new();
    let mut k: usize = a;
    while k < b
        invariant
            a <= k <= b,
            b <= s@.len(),
            out@ == s@.subrange(a as int, k as int),
        decreases b - k,
    {
        out.push(s[k]);
        k = k + 1;
        assert(out@ =~= s@.subrange(a as int, k as int));
    }
    out
}

/// The pieces of `s` between `::` separators.
pub fn split_double_colon(s: &Vec<char>) -> (r: Vec<Vec<char>>)
    ensures
        r@.map_values(|p: Vec<char>| p@) == split_dc(s@),
{
    let n = s.len();
    let mut out: Vec<Vec<char>> = Vec::new();
    let mut from: usize = 0;
    assert(s@.skip(0) =~= s@);
    assert(out@.map_values(|p: Vec<char>| p@) =~= Seq::<Seq<char>>::empty());
    loop
        invariant
            n == s@.len(),
            from <= s@.len(),
            out@.map_values(|p: Vec<char>| p@) + split_dc(s@.skip(from as int)) == split_dc(s@),
        decreases s@.len() - from,
    {
        let ghost rest = s@.skip(from as int);
        let ghost before = out@.map_values(|p: Vec<char>| p@);
        match find_dc(s, from) {
            Some(i) => {
                proof {
                    lemma_first_dc_bounds(rest);
                    assert(rest.take(i - from) =~= s@.subrange(from as int, i as int));
                    assert(rest.skip(i - from + 2) =~= s@.skip(i + 2));
                }
                out.push(subvec(s, from, i));
                assert(out@.map_values(|p: Vec<char>| p@) =~= before.push(
                    s@.subrange(from as int, i as int),
                ));
                assert(split_dc(rest) == seq![rest.take(i - from)] + split_dc(rest.skip(i - from + 2)));
                assert(out@.map_values(|p: Vec<char>| p@) + split_dc(s@.skip(i + 2)) =~= before
                    + split_dc(rest));
                from = i + 2;
            },
            None => {
                out.push(subvec(s, from, s.len()));
                assert(rest =~= s@.subrange(from as int, s@.len() as int));
                assert(out@.map_values(|p: Vec<char>| p@) =~= before + split_dc(rest));
                return out;
            },
        }
    }
}

fn strip_angle_brackets(s: &Vec<char>) -> (r: Vec<char>)
    ensures
        r@ == strip_angles(s@),
{
    let n = s.len();
    let mut a: usize = 0;
    while a < n && (s[a] == '<' || s[a] == '>')
        invariant
            a <= n,
            n == s@.len(),
            forall|k: int| 0 <= k < a ==> is_angle(#[trigger] s@[k]),
        decreases n - a,
    {
        a = a + 1;
    }
    proof {
        lemma_lead_angles_is(s@, a as int);
    }
    if a == n {
        return Vec::new();
    }
    let mut b: usize = n;
    while b > a && (s[b - 1] == '<' || s[b - 1] == '>')
        invariant
            a < b <= n,
            n == s@.len(),
            !is_angle(s@[a as int]),
            forall|k: int| b <= k < n ==> is_angle(#[trigger] s@[k]),
        decreases b - a,
    {
        b = b - 1;
    }
    proof {
        lemma_trail_angles_is(s@, b as int);
    }
    subvec(s, a, b)
}

proof fn lemma_lead_angles_is(s: Seq<char>, i: int)
    requires
        0 <= i <= s.len(),
        forall|k: int| 0 <= k < i ==> is_angle(#[trigger] s[k]),
        i == s.len() || !is_angle(s[i]),
    ensures
        lead_angles(s) == i,
    decreases s.len(),
{
    if i > 0 {
        assert(is_angle(s[0]));
        assert forall|k: int| 0 <= k < i - 1 implies is_angle(#[trigger] s.drop_first()[k]) by {
            assert(s.drop_first()[k] == s[k + 1]);
        }
        if i - 1 < s.drop_first().len() {
            assert(s.drop_first()[i - 1] == s[i]);
        }
        lemma_lead_angles_is(s.drop_first(), i - 1);
    }
}

proof fn lemma_trail_angles_is(s: Seq<char>, j: int)
    requires
        0 <= j <= s.len(),
        forall|k: int| j <= k < s.len() ==> is_angle(#[trigger] s[k]),
        j == 0 || !is_angle(s[j - 1]),
    ensures
        trail_angles(s) == s.len() - j,
    decreases s.len(),
{
    if j < s.len() {
        assert(is_angle(s.last()));
        assert forall|k: int| j <= k < s.len() - 1 implies is_angle(#[trigger] s.drop_last()[k]) by {
            assert(s.drop_last()[k] == s[k]);
        }
        if j > 0 {
            assert(s.drop_last()[j - 1] == s[j - 1]);
        }
        lemma_trail_angles_is(s.drop_last(), j);
    }
}

fn cleaned_symbol(name: &str) -> (r: Vec<char>)
    ensures
        r@ == cleaned(name@),
{
    let cs = chars_of(name);
    let toks = split_whitespace(&cs);
    let ghost tv = toks@.map_values(|t: Vec<char>| t@);
    let first: Vec<char> = if toks.len() > 0 {
        assert(tv[0] == toks@[0]@);
        let mut f: Vec<char> = Vec::new();
        let mut k: usize = 0;
        while k < toks[0].len()
            invariant
                toks@.len() > 0,
                k <= toks@[0]@.len(),
                f@ == toks@[0]@.take(k as int),
            decreases toks@[0]@.len() - k,
        {
            f.push(toks[0][k]);
            k = k + 1;
            assert(f@ =~= toks@[0]@.take(k as int));
        }
        assert(toks@[0]@.take(toks@[0]@.len() as int) =~= toks@[0]@);
        f
    } else {
        cs
    };
    strip_angle_brackets(&first)
}

/// The crate of a sampled symbol: the first `::`-separated piece of the
/// symbol's first token, angle brackets stripped.
pub fn derive_crate(name: &str) -> (r: String)
    ensures
        r@ == before_dc(cleaned(name@)),
{
    let c = cleaned_symbol(name);
    let parts = split_double_colon(&c);
    proof {
        lemma_split_first(c@);
    }
    assert(parts@.len() > 0);
    assert(parts@.map_values(|p: Vec<char>| p@)[0] == parts@[0]@);
    string_of(&parts[0])
}

pub(crate) proof fn lemma_split_first(s: Seq<char>)
    ensures
        split_dc(s).len() > 0,
        split_dc(s)[0] == before_dc(s),
{
    lemma_first_dc_bounds(s);
}

/// The non-empty pieces of `parts`.
pub open spec fn nonempty(parts: Seq<Seq<char>>) -> Seq<Seq<char>> {
    parts.filter(|p: Seq<char>| p.len() > 0)
}

/// A module path made of the first two non-empty pieces: `unknown` when
/// there is none, the piece alone when there is one.
pub open spec fn module_of_parts(parts: Seq<Seq<char>>) -> Seq<char> {
    let p = nonempty(parts);
    if p.len() == 0 {
        "unknown"@
    } else if p.len() == 1 {
        p[0]
    } else {
        p[0] + "::"@ + p[1]
    }
}

pub(crate) fn module_from_parts(parts: &Vec<Vec<char>>) -> (r: String)
    ensures
        r@ == module_of_parts(parts@.map_values(|p: Vec<char>| p@)),
{
    let ghost pv = parts@.map_values(|p: Vec<char>| p@);
    let ghost pred = |p: Seq<char>| p.len() > 0;
    let mut kept: Vec<usize> = Vec::new();
    let mut i: usize = 0;
    while i < parts.len()
        invariant
            i <= parts@.len(),
            pv == parts@.map_values(|p: Vec<char>| p@),
            pred == (|p: Seq<char>| p.len() > 0),
            kept@.len() <= 2,
            kept@.len() < 2 ==> kept@.map_values(|k: usize| pv[k as int]) == pv.take(i as int).filter(
                pred,
            ),
            kept@.len() == 2 ==> kept@.map_values(|k: usize| pv[k as int]) == pv.take(
                i as int,
            ).filter(pred).take(2),
            kept@.len() == 2 ==> pv.take(i as int).filter(pred).len() >= 2,
            forall|j: int| 0 <= j < kept@.len() ==> #[trigger] kept@[j] < i,
        decreases parts@.len() - i,
    {
        let ghost before = kept@;
        let ghost f_old = pv.take(i as int).filter(pred);
        proof {
            reveal(Seq::filter);
            assert(pv.take(i + 1).drop_last() =~= pv.take(i as int));
            assert(pv.take(i + 1).last() == pv[i as int]);
            assert(pv[i as int] == parts@[i as int]@);
        }
        let ghost f_new = pv.take(i + 1).filter(pred);
        if parts[i].len() > 0 && kept.len() < 2 {
            kept.push(i);
            proof {
                assert(kept@.map_values(|k: usize| pv[k as int]) =~= before.map_values(
                    |k: usize| pv[k as int],
                ).push(pv[i as int]));
                assert(f_new =~= f_old.push(pv[i as int]));
                if kept@.len() == 2 {
                    assert(f_new.take(2) =~= f_new);
                }
            }
        } else if kept.len() == 2 {
            assert(f_new.take(2) =~= f_old.take(2)) by {
                if pred(pv[i as int]) {
                    assert(f_new =~= f_old.push(pv[i as int]));
                }
            }
        }
        i = i + 1;
    }
    proof {
        assert(pv.take(parts@.len() as int) =~= pv);
        let kv = kept@.map_values(|k: usize| pv[k as int]);
        if kept@.len() >= 1 {
            assert(kv[0] == pv[kept@[0] as int]);
            assert(pv[kept@[0] as int] == parts@[kept@[0] as int]@);
        }
        if kept@.len() == 2 {
            assert(kv[1] == pv[kept@[1] as int]);
            assert(pv[kept@[1] as int] == parts@[kept@[1] as int]@);
        }
    }
    if kept.len() == 0 {
        proof {
            reveal_strlit("unknown");
        }
        String::from_str("unknown")
    } else if kept.len() == 1 {
        string_of(&parts[kept[0]])
    } else {
        let mut r = string_of(&parts[kept[0]]);
        r.append("::");
        let second = string_of(&parts[kept[1]]);
        r.append(second.as_str());
        proof {
            reveal_strlit("::");
        }
        r
    }
}

/// The module of a sampled symbol: the first two non-empty `::`-separated
/// pieces of the cleaned symbol (`unknown` when there is none).
pub fn derive_module(name: &str) -> (r: String)
    ensures
        r@ == module_of_parts(split_dc(cleaned(name@))),
{
    let c = cleaned_symbol(name);
    let parts = split_double_colon(&c);
    module_from_parts(&parts)
}

// ─── unknown symbols ────────────────────────────────────────────────────────

pub open spec fn ascii_lower(c: char) -> char {
    if 'A' <= c && c <= 'Z' {
        ((c as u32) + 32) as char
    } else {
        c
    }
}

/// `a` and `b` are equal ignoring ASCII case.
pub open spec fn eq_ignore_ascii_case(a: Seq<char>, b: Seq<char>) -> bool {
    a.len() == b.len() && forall|k: int| 0 <= k < a.len() ==> ascii_lower(#[trigger] a[k]) == ascii_lower(b[k])
}

/// A symbol the sampler could not name: blank, `unknown` in any ASCII case,
/// or holding `[unknown]` or `???`.
pub open spec fn unknown_symbol(name: Seq<char>) -> bool {
    let t = trimmed(name);
    t.len() == 0 || eq_ignore_ascii_case(t, "unknown"@) || has_sub(t, "[unknown]"@) || has_sub(
        t,
        "???"@,
    )
}

fn lower(c: char) -> (r: char)
    ensures
        r == ascii_lower(c),
{
    if 'A' <= c && c <= 'Z' {
        let b: u8 = c as u8;
        (b + 32) as char
    } else {
        c
    }
}

fn same_ignoring_case(a: &Vec<char>, b: &Vec<char>) -> (r: bool)
    ensures
        r == eq_ignore_ascii_case(a@, b@),
{
    if a.len() != b.len() {
        return false;
    }
    let mut k: usize = 0;
    while k < a.len()
        invariant
            a@.len() == b@.len(),
            k <= a@.len(),
            forall|j: int| 0 <= j < k ==> ascii_lower(#[trigger] a@[j]) == ascii_lower(b@[j]),
        decreases a@.len() - k,
    {
        if lower(a[k]) != lower(b[k]) {
            return false;
        }
        k = k + 1;
    }
    true
}

/// Whether the sampler could not name this symbol.
pub fn is_unknown_symbol(name: &str) -> (r: bool)
    ensures
        r == unknown_symbol(name@),
{
    let cs = chars_of(name);
    let t = trim(&cs);
    if t.len() == 0 {
        return true;
    }
    let unknown = chars_of("unknown");
    if same_ignoring_case(&t, &unknown) {
        return true;
    }
    let bracketed = chars_of("[unknown]");
    if contains_seq(&t, &bracketed) {
        return true;
    }
    let marks = chars_of("???");
    contains_seq(&t, &marks)
}

// ─── per-symbol counts ──────────────────────────────────────────────────────

/// Sample counts per symbol, each symbol once, in order of first sight.
pub open spec fn count_names(rows: Seq<(Seq<char>, u64)>) -> Seq<Seq<char>> {
    rows.map_values(|p: (Seq<char>, u64)| p.0)
}

/// `rows` after adding `n` samples of `name`.
pub open spec fn bumped(rows: Seq<(Seq<char>, u64)>, name: Seq<char>, n: u64) -> Seq<
    (Seq<char>, u64),
> {
    if count_names(rows).contains(name) {
        let p = count_names(rows).index_of(name);
        rows.update(p, (name, wrap_add(rows[p].1, n)))
    } else {
        rows.push((name, n))
    }
}

pub open spec fn rows_view(rows: Seq<(String, u64)>) -> Seq<(Seq<char>, u64)> {
    rows.map_values(|p: (String, u64)| (p.0@, p.1))
}

/// Adds `n` samples of `name` to `rows`.
pub fn bump(rows: &mut Vec<(String, u64)>, name: &String, n: u64)
    requires
        count_names(rows_view(old(rows)@)).no_duplicates(),
    ensures
        count_names(rows_view(final(rows)@)).no_duplicates(),
        rows_view(final(rows)@) == bumped(rows_view(old(rows)@), name@, n),
{
    let ghost rv = rows_view(rows@);
    let ghost names = count_names(rv);
    let mut i: usize = 0;
    while i < rows.len()
        invariant
            i <= rows@.len(),
            rv == rows_view(rows@),
            rv == rows_view(old(rows)@),
            names == count_names(rv),
            names.no_duplicates(),
            forall|k: int| 0 <= k < i ==> names[k] != name@,
        decreases rows@.len() - i,
    {
        assert(names[i as int] == rows@[i as int].0@);
        if rows[i].0 == *name {
            assert(names.contains(name@));
            assert(names.index_of(name@) == i as int) by {
                let c = names.index_of(name@);
                assert(names[c] == name@);
            }
            let c = add_wrapping(rows[i].1, n);
            let key = rows[i].0.clone();
            rows.set(i, (key, c));
            assert(rows_view(rows@) =~= bumped(rv, name@, n));
            assert(count_names(rows_view(rows@)) =~= names);
            return;
        }
        i = i + 1;
    }
    rows.push((name.clone(), n));
    proof {
        let nv = count_names(rows_view(rows@));
        assert(rows_view(rows@) =~= bumped(rv, name@, n));
        assert(nv =~= names.push(name@));
        assert forall|a: int, b: int| 0 <= a < nv.len() && 0 <= b < nv.len() && a != b implies nv[a]
            != nv[b] by {
            if a < names.len() && b == names.len() {
                assert(names.contains(nv[a]));
            } else if b < names.len() && a == names.len() {
                assert(names.contains(nv[b]));
            }
        }
    }
}

// ─── perf script output ─────────────────────────────────────────────────────

/// What reading `perf script` output has gathered so far: the counts, and
/// the top frame of the stack being read.
pub struct PerfState {
    pub rows: Seq<(Seq<char>, u64)>,
    pub top: Option<Seq<char>>,
}

/// The symbol a stack line names: its second token, or the whole trimmed
/// line when it has fewer.
pub open spec fn frame_symbol(t: Seq<char>) -> Seq<char> {
    if tokens(t).len() > 1 {
        tokens(t)[1]
    } else {
        t
    }
}

/// A finished stack counts one sample for its top frame.
pub open spec fn flush(st: PerfState) -> Seq<(Seq<char>, u64)> {
    match st.top {
        Some(t) => bumped(st.rows, t, 1),
        None => st.rows,
    }
}

/// Reading one line: a blank line ends a stack; a line starting with a
/// digit is a sample header; any other line is a frame, the first of a
/// stack being its top.
pub open spec fn perf_step(st: PerfState, line: Seq<char>) -> PerfState {
    let t = trimmed(line);
    if t.len() == 0 {
        PerfState { rows: flush(st), top: None }
    } else if unicode_numeric(t[0]) {
        st
    } else {
        PerfState {
            rows: st.rows,
            top: match st.top {
                Some(x) => Some(x),
                None => Some(frame_symbol(t)),
            },
        }
    }
}

pub open spec fn perf_fold(ls: Seq<Seq<char>>) -> PerfState
    decreases ls.len(),
{
    if ls.len() == 0 {
        PerfState { rows: Seq::empty(), top: None }
    } else {
        perf_step(perf_fold(ls.drop_last()), ls.last())
    }
}

/// The samples per top-of-stack symbol in `perf script` output.
pub open spec fn perf_counts(content: Seq<char>) -> Seq<(Seq<char>, u64)> {
    flush(perf_fold(lines_of(content)))
}

fn vec_copy(v: &Vec<char>) -> (r: Vec<char>)
    ensures
        r@ == v@,
{
    let mut out: Vec<char> = Vec::new();
    let mut k: usize = 0;
    while k < v.len()
        invariant
            k <= v@.len(),
            out@ == v@.take(k as int),
        decreases v@.len() - k,
    {
        out.push(v[k]);
        k = k + 1;
        assert(out@ =~= v@.take(k as int));
    }
    assert(v@.take(v@.len() as int) =~= v@);
    out
}

/// Counts the samples of `perf script` output by the symbol on top of each
/// stack.
pub fn parse_perf_script(content: &str) -> (r: Vec<(String, u64)>)
    ensures
        count_names(rows_view(r@)).no_duplicates(),
        rows_view(r@) == perf_counts(content@),
{
    let cs = chars_of(content);
    let ls = lines(&cs);
    let ghost lv = ls@.map_values(|l: Vec<char>| l@);
    let mut rows: Vec<(String, u64)> = Vec::new();
    let mut top: Option<String> = None;
    assert(count_names(rows_view(rows@)) =~= Seq::<Seq<char>>::empty());
    assert(lv.take(0) =~= Seq::<Seq<char>>::empty());
    assert(rows_view(rows@) =~= Seq::<(Seq<char>, u64)>::empty());
    let mut i: usize = 0;
    while i < ls.len()
        invariant
            i <= ls@.len(),
            lv == ls@.map_values(|l: Vec<char>| l@),
            count_names(rows_view(rows@)).no_duplicates(),
            perf_fold(lv.take(i as int)) == (PerfState {
                rows: rows_view(rows@),
                top: match top {
                    Some(s) => Some(s@),
                    None => None,
                },
            }),
        decreases ls@.len() - i,
    {
        proof {
            assert(lv.take(i + 1).drop_last() =~= lv.take(i as int));
            assert(lv.take(i + 1).last() == ls@[i as int]@);
        }
        let t = trim(&ls[i]);
        if t.len() == 0 {
            match &top {
                Some(name) => {
                    bump(&mut rows, name, 1);
                },
                None => {},
            }
            top = None;
        } else if is_numeric(t[0]) {
        } else if top.is_none() {
            let toks = split_whitespace(&t);
            let sym = if toks.len() > 1 {
                proof {
                    assert(toks@.map_values(|x: Vec<char>| x@)[1] == toks@[1]@);
                }
                vec_copy(&toks[1])
            } else {
                vec_copy(&t)
            };
            top = Some(string_of(&sym));
        }
        i = i + 1;
    }
    assert(lv.take(ls@.len() as int) =~= lv);
    match &top {
        Some(name) => {
            bump(&mut rows, name, 1);
        },
        None => {},
    }
    rows
}

// ─── macOS `sample` output ──────────────────────────────────────────────────

/// The sample total a line announces: the number that ends a line holding
/// `Total number of samples`.
pub open spec fn announced_total(line: Seq<char>) -> Option<u64> {
    if has_sub(line, "Total number of samples"@) && tokens(line).len() > 0 {
        parse_u64_spec(tokens(line).last())
    } else {
        None
    }
}

/// The first announced total among `ls`, or zero.
pub open spec fn first_total(ls: Seq<Seq<char>>) -> u64
    decreases ls.len(),
{
    if ls.len() == 0 {
        0
    } else {
        match announced_total(ls[0]) {
            Some(v) => v,
            None => first_total(ls.drop_first()),
        }
    }
}

/// A count line: a number, then the symbol (the remaining tokens joined by
/// spaces).
pub open spec fn count_line(line: Seq<char>) -> Option<(Seq<char>, u64)> {
    let parts = tokens(trimmed(line));
    if parts.len() < 2 {
        None
    } else {
        match parse_u64_spec(parts[0]) {
            Some(n) => Some((join_spaced(parts.drop_first()), n)),
            None => None,
        }
    }
}

/// Adds the count a line holds, if it holds one.
pub open spec fn add_count_line(rows: Seq<(Seq<char>, u64)>, line: Seq<char>) -> Seq<
    (Seq<char>, u64),
> {
    match count_line(line) {
        Some((sym, n)) => bumped(rows, sym, n),
        None => rows,
    }
}

/// The counts of every count line of `ls`.
pub open spec fn all_counts(ls: Seq<Seq<char>>) -> Seq<(Seq<char>, u64)>
    decreases ls.len(),
{
    if ls.len() == 0 {
        Seq::empty()
    } else {
        add_count_line(all_counts(ls.drop_last()), ls.last())
    }
}

/// `rows` extended by the section's counts among `ls`.
pub open spec fn section_acc(rows: Seq<(Seq<char>, u64)>, ls: Seq<Seq<char>>, inside: bool) -> Seq<
    (Seq<char>, u64),
>
    decreases ls.len(),
{
    if ls.len() == 0 {
        rows
    } else {
        let line = ls[0];
        if has_sub(line, "Sort by top of stack"@) {
            section_acc(rows, ls.drop_first(), true)
        } else if inside && trimmed(line).len() == 0 {
            rows
        } else if !inside {
            section_acc(rows, ls.drop_first(), false)
        } else {
            section_acc(add_count_line(rows, line), ls.drop_first(), true)
        }
    }
}

/// What the macOS `sample` tool reported: the announced total and the
/// samples per top-of-stack symbol (from the "Sort by top of stack"
/// section, or, when that yields nothing, from every count line).
pub open spec fn sample_chunk(content: Seq<char>) -> (u64, Seq<(Seq<char>, u64)>) {
    let ls = lines_of(content);
    let sec = section_acc(Seq::empty(), ls, false);
    (first_total(ls), if sec.len() > 0 {
        sec
    } else {
        all_counts(ls)
    })
}


fn join_tokens_from_second(parts: &Vec<Vec<char>>) -> (r: String)
    requires
        parts@.len() >= 2,
    ensures
        r@ == join_spaced(parts@.map_values(|p: Vec<char>| p@).drop_first()),
{
    let ghost pv = parts@.map_values(|p: Vec<char>| p@);
    let ghost rest = pv.drop_first();
    let mut r = string_of(&parts[1]);
    proof {
        assert(rest.take(1) =~= seq![pv[1]]);
        assert(pv[1] == parts@[1]@);
    }
    let mut k: usize = 2;
    while k < parts.len()
        invariant
            2 <= k <= parts@.len(),
            pv == parts@.map_values(|p: Vec<char>| p@),
            rest == pv.drop_first(),
            r@ == join_spaced(rest.take(k - 1)),
        decreases parts@.len() - k,
    {
        proof {
            assert(rest.take(k as int).drop_last() =~= rest.take(k - 1));
            assert(rest.take(k as int).last() == pv[k as int]);
            assert(pv[k as int] == parts@[k as int]@);
        }
        r.push(' ');
        let piece = string_of(&parts[k]);
        r.append(piece.as_str());
        k = k + 1;
    }
    assert(rest.take(parts@.len() - 1) =~= rest);
    r
}

fn count_line_of(line: &Vec<char>) -> (r: Option<(String, u64)>)
    ensures
        match count_line(line@) {
            Some((sym, n)) => r matches Some((rs, rn)) && rs@ == sym && rn == n,
            None => r is None,
        },
{
    let t = trim(line);
    let parts = split_whitespace(&t);
    let ghost pv = parts@.map_values(|p: Vec<char>| p@);
    if parts.len() < 2 {
        return None;
    }
    assert(pv[0] == parts@[0]@);
    match parse_u64(&parts[0]) {
        Some(n) => Some((join_tokens_from_second(&parts), n)),
        None => None,
    }
}

fn announced_total_of(line: &Vec<char>) -> (r: Option<u64>)
    ensures
        r == announced_total(line@),
{
    let heading = chars_of("Total number of samples");
    if !contains_seq(line, &heading) {
        return None;
    }
    let toks = split_whitespace(line);
    if toks.len() == 0 {
        return None;
    }
    let n = toks.len();
    assert(toks@.map_values(|p: Vec<char>| p@).last() == toks@[n - 1]@);
    parse_u64(&toks[n - 1])
}

/// What one run of the macOS `sample` tool reported.
pub struct SampleChunk {
    pub total_samples: u64,
    /// Samples per top-of-stack symbol, each symbol once.
    pub counts: Vec<(String, u64)>,
}

proof fn lemma_first_total_skip(ls: Seq<Seq<char>>, i: int)
    requires
        0 <= i < ls.len(),
    ensures
        first_total(ls.skip(i)) == match announced_total(ls[i]) {
            Some(v) => v,
            None => first_total(ls.skip(i + 1)),
        },
{
    assert(ls.skip(i)[0] == ls[i]);
    assert(ls.skip(i).drop_first() =~= ls.skip(i + 1));
}

proof fn lemma_section_skip(rows: Seq<(Seq<char>, u64)>, ls: Seq<Seq<char>>, i: int, inside: bool)
    requires
        0 <= i < ls.len(),
    ensures
        section_acc(rows, ls.skip(i), inside) == ({
            let line = ls[i];
            if has_sub(line, "Sort by top of stack"@) {
                section_acc(rows, ls.skip(i + 1), true)
            } else if inside && trimmed(line).len() == 0 {
                rows
            } else if !inside {
                section_acc(rows, ls.skip(i + 1), false)
            } else {
                section_acc(add_count_line(rows, line), ls.skip(i + 1), true)
            }
        }),
{
    assert(ls.skip(i)[0] == ls[i]);
    assert(ls.skip(i).drop_first() =~= ls.skip(i + 1));
}

fn add_counts_of_line(rows: &mut Vec<(String, u64)>, line: &Vec<char>)
    requires
        count_names(rows_view(old(rows)@)).no_duplicates(),
    ensures
        count_names(rows_view(final(rows)@)).no_duplicates(),
        rows_view(final(rows)@) == add_count_line(rows_view(old(rows)@), line@),
{
    match count_line_of(line) {
        Some((sym, n)) => {
            bump(rows, &sym, n);
        },
        None => {},
    }
}

/// Reads the output of one run of the macOS `sample` tool: the sample
/// total it announces (zero if none) and the samples per symbol of its
/// "Sort by top of stack" section, or of every count line when that
/// section yields none.
pub fn parse_sample_chunk(content: &str) -> (r: SampleChunk)
    ensures
        count_names(rows_view(r.counts@)).no_duplicates(),
        (r.total_samples, rows_view(r.counts@)) == sample_chunk(content@),
{
    let cs = chars_of(content);
    let ls = lines(&cs);
    let ghost lv = ls@.map_values(|l: Vec<char>| l@);
    assert(lv == lines_of(content@));
    // the announced total
    let mut total: u64 = 0;
    let mut i: usize = 0;
    assert(lv.skip(0) =~= lv);
    while i < ls.len()
        invariant_except_break
            total == 0,
        invariant
            i <= ls@.len(),
            lv == ls@.map_values(|l: Vec<char>| l@),
            first_total(lv) == first_total(lv.skip(i as int)),
        ensures
            (i < ls@.len() && total == first_total(lv)) || (i == ls@.len() && total == 0),
        decreases ls@.len() - i,
    {
        proof {
            lemma_first_total_skip(lv, i as int);
            assert(lv[i as int] == ls@[i as int]@);
        }
        match announced_total_of(&ls[i]) {
            Some(v) => {
                total = v;
                break;
            },
            None => {},
        }
        i = i + 1;
    }
    assert(total == first_total(lv)) by {
        if i == ls@.len() {
            assert(lv.skip(i as int) =~= Seq::<Seq<char>>::empty());
        }
    }
    // the top-of-stack section
    let mut rows: Vec<(String, u64)> = Vec::new();
    assert(rows_view(rows@) =~= Seq::<(Seq<char>, u64)>::empty());
    assert(count_names(rows_view(rows@)) =~= Seq::<Seq<char>>::empty());
    let mut inside = false;
    let mut j: usize = 0;
    while j < ls.len()
        invariant
            j <= ls@.len(),
            lv == ls@.map_values(|l: Vec<char>| l@),
            count_names(rows_view(rows@)).no_duplicates(),
            section_acc(Seq::empty(), lv, false) == section_acc(
                rows_view(rows@),
                lv.skip(j as int),
                inside,
            ),
        ensures
            count_names(rows_view(rows@)).no_duplicates(),
            section_acc(Seq::empty(), lv, false) == rows_view(rows@),
        decreases ls@.len() - j,
    {
        proof {
            lemma_section_skip(rows_view(rows@), lv, j as int, inside);
            assert(lv[j as int] == ls@[j as int]@);
        }
        let heading = chars_of("Sort by top of stack");
        if contains_seq(&ls[j], &heading) {
            inside = true;
        } else if inside && trim(&ls[j]).len() == 0 {
            break;
        } else if inside {
            add_counts_of_line(&mut rows, &ls[j]);
        }
        j = j + 1;
        proof {
            if j == ls@.len() {
                assert(lv.skip(j as int) =~= Seq::<Seq<char>>::empty());
            }
        }
    }
    if rows.len() > 0 {
        return SampleChunk { total_samples: total, counts: rows };
    }
    // every count line
    let mut all: Vec<(String, u64)> = Vec::new();
    assert(rows_view(all@) =~= Seq::<(Seq<char>, u64)>::empty());
    assert(count_names(rows_view(all@)) =~= Seq::<Seq<char>>::empty());
    let mut k: usize = 0;
    while k < ls.len()
        invariant
            k <= ls@.len(),
            lv == ls@.map_values(|l: Vec<char>| l@),
            count_names(rows_view(all@)).no_duplicates(),
            rows_view(all@) == all_counts(lv.take(k as int)),
        decreases ls@.len() - k,
    {
        proof {
            assert(lv.take(k + 1).drop_last() =~= lv.take(k as int));
            assert(lv.take(k + 1).last() == ls@[k as int]@);
        }
        add_counts_of_line(&mut all, &ls[k]);
        k = k + 1;
    }
    assert(lv.take(ls@.len() as int) =~= lv);
    SampleChunk { total_samples: total, counts: all }
}

// ─── symbol quality ─────────────────────────────────────────────────────────

/// The sum of the counts.
pub open spec fn count_sum(rows: Seq<(Seq<char>, u64)>) -> u64
    decreases rows.len(),
{
    if rows.len() == 0 {
        0
    } else {
        wrap_add(count_sum(rows.drop_last()), rows.last().1)
    }
}

/// The sum of the counts of unknown symbols.
pub open spec fn unknown_sum(rows: Seq<(Seq<char>, u64)>) -> u64
    decreases rows.len(),
{
    if rows.len() == 0 {
        0
    } else if unknown_symbol(rows.last().0) {
        wrap_add(unknown_sum(rows.drop_last()), rows.last().1)
    } else {
        unknown_sum(rows.drop_last())
    }
}

/// How well the samples could be attributed to symbols.
pub struct SymbolStats {
    /// Samples attributed to some symbol.
    pub symbolized_samples: u64,
    /// Samples attributed to symbols the sampler could not name.
    pub unknown_symbols: u64,
    /// Raw samples not attributed at all.
    pub dropped_samples: u64,
}

/// The symbol-quality totals of `counts`, given the number of raw samples
/// taken.
pub fn symbol_stats(counts: &Vec<(String, u64)>, raw_samples: u64) -> (r: SymbolStats)
    ensures
        r.symbolized_samples == count_sum(rows_view(counts@)),
        r.unknown_symbols == unknown_sum(rows_view(counts@)),
        r.dropped_samples == sat_sub(raw_samples, r.symbolized_samples),
{
    let ghost rv = rows_view(counts@);
    let mut sym: u64 = 0;
    let mut unk: u64 = 0;
    let mut i: usize = 0;
    while i < counts.len()
        invariant
            i <= counts@.len(),
            rv == rows_view(counts@),
            sym == count_sum(rv.take(i as int)),
            unk == unknown_sum(rv.take(i as int)),
        decreases counts@.len() - i,
    {
        proof {
            assert(rv.take(i + 1).drop_last() =~= rv.take(i as int));
            assert(rv.take(i + 1).last() == (counts@[i as int].0@, counts@[i as int].1));
        }
        sym = add_wrapping(sym, counts[i].1);
        if is_unknown_symbol(counts[i].0.as_str()) {
            unk = add_wrapping(unk, counts[i].1);
        }
        i = i + 1;
    }
    assert(rv.take(counts@.len() as int) =~= rv);
    SymbolStats {
        symbolized_samples: sym,
        unknown_symbols: unk,
        dropped_samples: raw_samples.saturating_sub(sym),
    }
}

/// The name of the sampling backend of a platform: `macos-sample` on macOS,
/// `linux-perf` on Linux, `unsupported` elsewhere.
pub fn platform_backend_name(is_macos: bool, is_linux: bool) -> (r: &'static str)
    ensures
        is_macos ==> r@ == "macos-sample"@,
        !is_macos && is_linux ==> r@ == "linux-perf"@,
        !is_macos && !is_linux ==> r@ == "unsupported"@,
{
    if is_macos {
        "macos-sample"
    } else if is_linux {
        "linux-perf"
    } else {
        "unsupported"
    }
}

} // verus!
