//! Character and string helpers shared by the policy, the search engine and
//! the dispatcher: ASCII lowercasing, decimal rendering of integers, and
//! trailing-whitespace trimming.

use vstd::prelude::*;

verus! {

/// The Unicode scalar value of `c` with an ASCII upper-case letter folded to
/// its lower-case counterpart.
pub open spec fn lower_val(c: char) -> u32 {
    if 65 <= c as u32 && c as u32 <= 90 {
        (c as u32 + 32) as u32
    } else {
        c as u32
    }
}

/// `e` equals `s` after ASCII case folding of `e` (`s` is expected to be
/// lower case already).
pub open spec fn eq_lower(e: Seq<char>, s: Seq<char>) -> bool {
    e.len() == s.len() && forall|i: int| 0 <= i < e.len() ==> lower_val(e[i]) == s[i] as u32
}

/// Case-insensitive comparison of `e` against a lower-case reference `s`.
pub fn eq_ignore_ascii_case(e: &str, s: &str) -> (r: bool)
    ensures
        r == eq_lower(e@, s@),
{
    let el = e.unicode_len();
    let sl = s.unicode_len();
    if el != sl {
        return false;
    }
    let mut i: usize = 0;
    while i < el
        invariant
            0 <= i <= el,
            el == e@.len(),
            el == s@.len(),
            forall|j: int| 0 <= j < i ==> lower_val(e@[j]) == s@[j] as u32,
        decreases el - i,
    {
        let ec = e.get_char(i);
        let sc = s.get_char(i);
        let ev: u32 = ec as u32;
        let lv: u32 = if 65 <= ev && ev <= 90 {
            ev + 32
        } else {
            ev
        };
        if lv != sc as u32 {
            return false;
        }
        i = i + 1;
    }
    true
}

/// The decimal digit `d` (below ten) as a character.
pub open spec fn digit_char(d: int) -> char {
    ((48 + d) as u32) as char
}

/// The decimal rendering of `n`, most significant digit first.
pub open spec fn dec_str(n: int) -> Seq<char>
    decreases n,
{
    if n < 10 {
        seq![digit_char(n)]
    } else {
        dec_str(n / 10).push(digit_char(n % 10))
    }
}

/// One decimal digit as a string slice.
fn digit_str(d: u64) -> (r: &'static str)
    requires
        d < 10,
    ensures
        r@ == seq![digit_char(d as int)],
{
    let r = match d {
        0 => "0",
        1 => "1",
        2 => "2",
        3 => "3",
        4 => "4",
        5 => "5",
        6 => "6",
        7 => "7",
        8 => "8",
        _ => "9",
    };
    proof {
        reveal_strlit("0");
        reveal_strlit("1");
        reveal_strlit("2");
        reveal_strlit("3");
        reveal_strlit("4");
        reveal_strlit("5");
        reveal_strlit("6");
        reveal_strlit("7");
        reveal_strlit("8");
        reveal_strlit("9");
    }
    r
}

/// Render `n` in decimal.
pub fn u64_to_string(n: u64) -> (r: String)
    ensures
        r@ == dec_str(n as int),
    decreases n,
{
    if n < 10 {
        String::from_str(digit_str(n))
    } else {
        let high = u64_to_string(n / 10);
        high.concat(digit_str(n % 10))
    }
}

/// Whitespace that may trail a matched line: blank, tab, carriage return,
/// line feed.
pub open spec fn is_line_ws(c: char) -> bool {
    c == ' ' || c == '\t' || c == '\r' || c == '\n'
}

/// `s` with every trailing whitespace character removed.
pub open spec fn trim_end_spec(s: Seq<char>) -> Seq<char>
    decreases s.len(),
{
    if s.len() > 0 && is_line_ws(s.last()) {
        trim_end_spec(s.drop_last())
    } else {
        s
    }
}

/// Whether `c` is line-trailing whitespace.
fn is_ws_char(c: char) -> (r: bool)
    ensures
        r == is_line_ws(c),
{
    c == ' ' || c == '\t' || c == '\r' || c == '\n'
}

/// Strip trailing whitespace from a line of output.
pub fn trim_line_end(s: &str) -> (r: String)
    ensures
        r@ == trim_end_spec(s@),
{
    let mut k = s.unicode_len();
    assert(s@.take(k as int) =~= s@);
    while k > 0 && is_ws_char(s.get_char(k - 1))
        invariant
            0 <= k <= s@.len(),
            trim_end_spec(s@) == trim_end_spec(s@.take(k as int)),
        decreases k,
    {
        proof {
            assert(s@.take(k as int).drop_last() =~= s@.take(k - 1));
        }
        k = k - 1;
    }
    let r = String::from_str(s.substring_char(0, k));
    proof {
        if k > 0 {
            assert(!is_line_ws(s@.take(k as int).last()));
        }
    }
    r
}

} // verus!
