//! Reading `key = value` arguments out of the text of an attribute's
//! argument list, as the profiling attributes take them
//! (`#[benchmark(iters = 1000, name = "parse")]`).

use vstd::prelude::*;
use vstd::string::StringExecFns;
use crate::scan::{trimmed, parse_u64_spec, trim, parse_u64, string_of};
use crate::text::chars_of;

verus! {

/// The leftmost position at which `t` occurs in `s`, as `str::find` gives
/// it.
pub open spec fn find_first(s: Seq<char>, t: Seq<char>) -> Option<int>
    decreases s.len(),
{
    if t.is_prefix_of(s) {
        Some(0)
    } else if s.len() == 0 {
        None
    } else {
        match find_first(s.drop_first(), t) {
            Some(i) => Some(i + 1),
            None => None,
        }
    }
}

pub open spec fn is_quote_or_space(c: char) -> bool {
    c == '"' || c == ' '
}

/// The number of leading quotes and spaces.
pub open spec fn lead_qs(s: Seq<char>) -> nat
    decreases s.len(),
{
    if s.len() > 0 && is_quote_or_space(s[0]) {
        1 + lead_qs(s.drop_first())
    } else {
        0
    }
}

/// The number of trailing quotes and spaces.
pub open spec fn trail_qs(s: Seq<char>) -> nat
    decreases s.len(),
{
    if s.len() > 0 && is_quote_or_space(s.last()) {
        1 + trail_qs(s.drop_last())
    } else {
        0
    }
}

/// `s` without leading and trailing quotes and spaces.
pub open spec fn strip_quotes(s: Seq<char>) -> Seq<char> {
    let a = lead_qs(s) as int;
    if a == s.len() {
        Seq::empty()
    } else {
        s.subrange(a, s.len() - trail_qs(s))
    }
}

/// The trimmed text after the first `key =` in `args`.
pub open spec fn after_key(args: Seq<char>, key: Seq<char>) -> Option<Seq<char>> {
    let pat = key + " ="@;
    match find_first(args, pat) {
        Some(pos) => Some(trimmed(args.skip(pos + pat.len()))),
        None => None,
    }
}

/// The string value of `key`: what follows `key =`, without surrounding
/// quotes and spaces.
pub open spec fn str_arg(args: Seq<char>, key: Seq<char>) -> Option<Seq<char>> {
    match after_key(args, key) {
        Some(rest) => Some(strip_quotes(rest)),
        None => None,
    }
}

/// The number of leading ASCII digits of `s`.
pub open spec fn digit_run(s: Seq<char>) -> nat
    decreases s.len(),
{
    if s.len() > 0 && '0' <= s[0] && s[0] <= '9' {
        1 + digit_run(s.drop_first())
    } else {
        0
    }
}

/// The numeric value of `key`: the digits right after `key =`.
pub open spec fn u64_arg(args: Seq<char>, key: Seq<char>) -> Option<u64> {
    match after_key(args, key) {
        Some(rest) => parse_u64_spec(rest.take(digit_run(rest) as int)),
        None => None,
    }
}

proof fn lemma_find_first_bounds(s: Seq<char>, t: Seq<char>)
    ensures
        find_first(s, t) matches Some(i) ==> 0 <= i && i + t.len() <= s.len() && t.is_prefix_of(
            s.skip(i),
        ),
        find_first(s, t) matches Some(i) ==> forall|k: int|
            0 <= k < i ==> !t.is_prefix_of(#[trigger] s.skip(k)),
        find_first(s, t) is None ==> forall|k: int|
            0 <= k <= s.len() ==> !t.is_prefix_of(#[trigger] s.skip(k)),
    decreases s.len(),
{
    if !t.is_prefix_of(s) && s.len() > 0 {
        let r = s.drop_first();
        lemma_find_first_bounds(r, t);
        assert forall|k: int| 1 <= k <= s.len() implies s.skip(k) =~= #[trigger] r.skip(k - 1) by {}
        assert(s.skip(0) =~= s);
        match find_first(r, t) {
            Some(i) => {
                assert(s.skip(i + 1) =~= r.skip(i));
                assert forall|k: int| 0 <= k < i + 1 implies !t.is_prefix_of(#[trigger] s.skip(k)) by {
                    if k >= 1 {
                        assert(s.skip(k) =~= r.skip(k - 1));
                    }
                }
            },
            None => {
                assert forall|k: int| 0 <= k <= s.len() implies !t.is_prefix_of(#[trigger] s.skip(k)) by {
                    if k >= 1 {
                        assert(s.skip(k) =~= r.skip(k - 1));
                    }
                }
            },
        }
    } else if t.is_prefix_of(s) {
        assert(s.skip(0) =~= s);
    } else {
        assert forall|k: int| 0 <= k <= s.len() implies !t.is_prefix_of(#[trigger] s.skip(k)) by {
            assert(s.skip(k) =~= s);
        }
    }
}

proof fn lemma_find_first_is(s: Seq<char>, t: Seq<char>, i: int)
    requires
        0 <= i <= s.len(),
        t.is_prefix_of(s.skip(i)),
        forall|k: int| 0 <= k < i ==> !t.is_prefix_of(#[trigger] s.skip(k)),
    ensures
        find_first(s, t) == Some(i),
    decreases i,
{
    assert(s.skip(0) =~= s);
    if i > 0 {
        let r = s.drop_first();
        assert forall|k: int| 0 <= k < i - 1 implies !t.is_prefix_of(#[trigger] r.skip(k)) by {
            assert(r.skip(k) =~= s.skip(k + 1));
        }
        assert(r.skip(i - 1) =~= s.skip(i));
        lemma_find_first_is(r, t, i - 1);
    }
}

fn prefix_at(s: &Vec<char>, t: &Vec<char>, i: usize) -> (r: bool)
    requires
        i <= s@.len(),
    ensures
        r == t@.is_prefix_of(s@.skip(i as int)),
{
    let sl = s.len();
    if t.len() > sl - i {
        return false;
    }
    let mut k: usize = 0;
    while k < t.len()
        invariant
            k <= t@.len(),
            sl == s@.len(),
            i + t@.len() <= s@.len(),
            forall|j: int| 0 <= j < k ==> s@[i + j] == t@[j],
        decreases t@.len() - k,
    {
        if s[i + k] != t[k] {
            assert(s@.skip(i as int)[k as int] == s@[i + k]);
            return false;
        }
        k = k + 1;
    }
    assert(s@.skip(i as int).subrange(0, t@.len() as int) =~= t@);
    true
}

fn find(s: &Vec<char>, t: &Vec<char>) -> (r: Option<usize>)
    ensures
        find_first(s@, t@) matches Some(i) ==> (r matches Some(k) && k == i),
        find_first(s@, t@) is None ==> r is None,
{
    let n = s.len();
    let mut i: usize = 0;
    while i <= n
        invariant
            n == s@.len(),
            i <= n,
            forall|k: int| 0 <= k < i ==> !t@.is_prefix_of(#[trigger] s@.skip(k)),
        ensures
            forall|k: int| 0 <= k <= n ==> !t@.is_prefix_of(#[trigger] s@.skip(k)),
        decreases n + 1 - i,
    {
        if prefix_at(s, t, i) {
            proof {
                lemma_find_first_is(s@, t@, i as int);
            }
            return Some(i);
        }
        if i == n {
            break;
        }
        i = i + 1;
    }
    proof {
        lemma_find_first_bounds(s@, t@);
        if find_first(s@, t@) is Some {
            let j = find_first(s@, t@)->0;
            assert(!t@.is_prefix_of(s@.skip(j)));
        }
    }
    None
}

fn tail_from(v: &Vec<char>, from: usize) -> (r: Vec<char>)
    requires
        from <= v@.len(),
    ensures
        r@ == v@.skip(from as int),
{
    let mut out: Vec<char> = Vec::new();
    let mut k: usize = from;
    while k < v.len()
        invariant
            from <= k <= v@.len(),
            out@ == v@.subrange(from as int, k as int),
        decreases v@.len() - k,
    {
        out.push(v[k]);
        k = k + 1;
        assert(out@ =~= v@.subrange(from as int, k as int));
    }
    assert(v@.subrange(from as int, v@.len() as int) =~= v@.skip(from as int));
    out
}

fn rest_after_key(args: &str, key: &str) -> (r: Option<Vec<char>>)
    ensures
        match after_key(args@, key@) {
            Some(rest) => r matches Some(v) && v@ == rest,
            None => r is None,
        },
{
    let mut pat = String::from_str(key);
    pat.append(" =");
    let a = chars_of(args);
    let alen = a.len();
    let p = chars_of(pat.as_str());
    match find(&a, &p) {
        Some(pos) => {
            proof {
                lemma_find_first_bounds(a@, p@);
            }
            let rest = tail_from(&a, pos + p.len());
            Some(trim(&rest))
        },
        None => None,
    }
}

proof fn lemma_lead_qs_is(s: Seq<char>, i: int)
    requires
        0 <= i <= s.len(),
        forall|k: int| 0 <= k < i ==> is_quote_or_space(#[trigger] s[k]),
        i == s.len() || !is_quote_or_space(s[i]),
    ensures
        lead_qs(s) == i,
    decreases s.len(),
{
    if i > 0 {
        assert(is_quote_or_space(s[0]));
        assert forall|k: int| 0 <= k < i - 1 implies is_quote_or_space(#[trigger] s.drop_first()[k]) by {
            assert(s.drop_first()[k] == s[k + 1]);
        }
        if i - 1 < s.drop_first().len() {
            assert(s.drop_first()[i - 1] == s[i]);
        }
        lemma_lead_qs_is(s.drop_first(), i - 1);
    }
}

proof fn lemma_trail_qs_is(s: Seq<char>, j: int)
    requires
        0 <= j <= s.len(),
        forall|k: int| j <= k < s.len() ==> is_quote_or_space(#[trigger] s[k]),
        j == 0 || !is_quote_or_space(s[j - 1]),
    ensures
        trail_qs(s) == s.len() - j,
    decreases s.len(),
{
    if j < s.len() {
        assert(is_quote_or_space(s.last()));
        assert forall|k: int| j <= k < s.len() - 1 implies is_quote_or_space(#[trigger] s.drop_last()[k]) by {
            assert(s.drop_last()[k] == s[k]);
        }
        if j > 0 {
            assert(s.drop_last()[j - 1] == s[j - 1]);
        }
        lemma_trail_qs_is(s.drop_last(), j);
    }
}

fn strip_quotes_spaces(s: &Vec<char>) -> (r: Vec<char>)
    ensures
        r@ == strip_quotes(s@),
{
    let n = s.len();
    let mut a: usize = 0;
    while a < n && (s[a] == '"' || s[a] == ' ')
        invariant
            a <= n,
            n == s@.len(),
            forall|k: int| 0 <= k < a ==> is_quote_or_space(#[trigger] s@[k]),
        decreases n - a,
    {
        a = a + 1;
    }
    proof {
        lemma_lead_qs_is(s@, a as int);
    }
    if a == n {
        return Vec::new();
    }
    let mut b: usize = n;
    while b > a && (s[b - 1] == '"' || s[b - 1] == ' ')
        invariant
            a < b <= n,
            n == s@.len(),
            !is_quote_or_space(s@[a as int]),
            forall|k: int| b <= k < n ==> is_quote_or_space(#[trigger] s@[k]),
        decreases b - a,
    {
        b = b - 1;
    }
    proof {
        lemma_trail_qs_is(s@, b as int);
    }
    let mut out: Vec<char> = Vec::new();
    let mut k: usize = a;
    while k < b
        invariant
            a <= k <= b,
            b <= s@.len(),
            out@ == s@.subrange(a as int, k as int),
        decreases b - k,
    {
        out.push(s[k]);
        k = k + 1;
        assert(out@ =~= s@.subrange(a as int, k as int));
    }
    out
}

/// The string value given to `key` in an attribute's arguments: the text
/// after the first `key =`, trimmed, without surrounding quotes and
/// spaces; `None` if `key =` does not occur.
pub fn extract_str_arg(args: &str, key: &str) -> (r: Option<String>)
    ensures
        match str_arg(args@, key@) {
            Some(v) => r matches Some(s) && s@ == v,
            None => r is None,
        },
{
    match rest_after_key(args, key) {
        Some(rest) => {
            let v = strip_quotes_spaces(&rest);
            Some(string_of(&v))
        },
        None => None,
    }
}

/// The numeric value given to `key` in an attribute's arguments: the
/// digits right after the first `key =` (trimmed); `None` if `key =` does
/// not occur or no number follows.
pub fn extract_u64_arg(args: &str, key: &str) -> (r: Option<u64>)
    ensures
        r == u64_arg(args@, key@),
{
    match rest_after_key(args, key) {
        Some(rest) => {
            let mut end: usize = 0;
            while end < rest.len() && '0' <= rest[end] && rest[end] <= '9'
                invariant
                    end <= rest@.len(),
                    forall|k: int| 0 <= k < end ==> '0' <= #[trigger] rest@[k] && rest@[k] <= '9',
                decreases rest@.len() - end,
            {
                end = end + 1;
            }
            proof {
                lemma_digit_run_is(rest@, end as int);
            }
            let mut digits: Vec<char> = Vec::new();
            let mut k: usize = 0;
            while k < end
                invariant
                    k <= end,
                    end <= rest@.len(),
                    digits@ == rest@.take(k as int),
                decreases end - k,
            {
                digits.push(rest[k]);
                k = k + 1;
                assert(digits@ =~= rest@.take(k as int));
            }
            parse_u64(&digits)
        },
        None => None,
    }
}

proof fn lemma_digit_run_is(s: Seq<char>, i: int)
    requires
        0 <= i <= s.len(),
        forall|k: int| 0 <= k < i ==> '0' <= #[trigger] s[k] && s[k] <= '9',
        i == s.len() || !('0' <= s[i] && s[i] <= '9'),
    ensures
        digit_run(s) == i,
    decreases s.len(),
{
    if i > 0 {
        assert('0' <= s[0] && s[0] <= '9');
        assert forall|k: int| 0 <= k < i - 1 implies '0' <= #[trigger] s.drop_first()[k]
            && s.drop_first()[k] <= '9' by {
            assert(s.drop_first()[k] == s[k + 1]);
        }
        if i - 1 < s.drop_first().len() {
            assert(s.drop_first()[i - 1] == s[i]);
        }
        lemma_digit_run_is(s.drop_first(), i - 1);
    }
}

} // verus!
