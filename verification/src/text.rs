//! Small text helpers shared by the other modules.

use vstd::prelude::*;

verus! {

pub assume_specification[ String::push ](s: &mut String, ch: char)
    ensures
        final(s)@ == old(s)@.push(ch),
;

/// The decimal digit character for `d` (0 to 9).
pub open spec fn digit_char(d: nat) -> char {
    ((48 + d) as u32) as char
}

/// Decimal representation of `n`, without sign or leading zeros ("0" for 0).
pub open spec fn decimal(n: nat) -> Seq<char>
    decreases n,
{
    if n < 10 {
        seq![digit_char(n)]
    } else {
        decimal(n / 10).push(digit_char(n % 10))
    }
}

fn digit(d: u64) -> (c: char)
    requires
        d < 10,
    ensures
        c == digit_char(d as nat),
{
    let c = match d {
        0 => '0',
        1 => '1',
        2 => '2',
        3 => '3',
        4 => '4',
        5 => '5',
        6 => '6',
        7 => '7',
        8 => '8',
        _ => '9',
    };
    c
}

/// Decimal representation of `n`, as `u64`'s `to_string` writes it.
pub fn u64_to_decimal(n: u64) -> (s: String)
    ensures
        s@ == decimal(n as nat),
{
    // digits, least significant first
    let mut rev: Vec<char> = Vec::new();
    let mut m: u64 = n;
    loop
        invariant_except_break
            decimal(n as nat) == decimal(m as nat) + rev@.reverse(),
        ensures
            decimal(n as nat) == rev@.reverse(),
        decreases m,
    {
        let ghost before = rev@;
        let ghost old_m = m;
        rev.push(digit(m % 10));
        if m < 10 {
            assert(decimal(old_m as nat) == seq![digit_char(old_m as nat)]);
            assert(rev@.reverse() =~= seq![digit_char(old_m as nat)] + before.reverse());
            break;
        }
        m = m / 10;
        assert(rev@.reverse() =~= seq![digit_char(old_m as nat % 10)] + before.reverse());
        assert(decimal(old_m as nat) == decimal(m as nat).push(digit_char(old_m as nat % 10)));
    }
    let mut s = String::new();
    let mut i: usize = rev.len();
    while i > 0
        invariant
            i <= rev@.len(),
            s@ + rev@.take(i as int).reverse() == rev@.reverse(),
        decreases i,
    {
        i = i - 1;
        let ghost before = s@;
        s.push(rev[i]);
        assert(rev@.take(i + 1).reverse() =~= seq![rev@[i as int]] + rev@.take(i as int).reverse());
    }
    assert(rev@.take(0).reverse() =~= Seq::<char>::empty());
    assert(s@ =~= rev@.reverse());
    s
}


/// The characters of `s`, in order.
pub fn chars_of(s: &str) -> (r: Vec<char>)
    ensures
        r@ == s@,
{
    let mut out: Vec<char> = Vec::new();
    for c in it: s.chars()
        invariant
            out@ == it.seq().take(it.index() as int),
    {
        out.push(c);
    }
    out
}

} // verus!
