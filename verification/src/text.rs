//! Conversions between Rust strings and indexable character buffers.

use vstd::prelude::*;

verus! {

/// `String::push` appends the given character to the end of the string and
/// changes nothing else.
pub assume_specification[ std::string::String::push ](s: &mut std::string::String, ch: char)
    ensures
        final(s)@ == old(s)@.push(ch),
;

/// The characters of `s`, in order, as a buffer that can be indexed in
/// constant time.
pub fn chars_of(s: &str) -> (chars: Vec<char>)
    ensures
        chars@ == s@,
{
    let mut chars: Vec<char> = Vec::new();
    for c in it: s.chars()
        invariant
            it.seq() == s@,
            chars@ == it.seq().take(it.index()),
    {
        chars.push(c);
    }
    chars
}

/// The string that holds exactly the characters of `chars`.
pub fn string_of(chars: &Vec<char>) -> (s: String)
    ensures
        s@ == chars@,
{
    let mut s = String::new();
    let mut i: usize = 0;
    while i < chars.len()
        invariant
            i <= chars.len(),
            s@ == chars@.take(i as int),
        decreases chars.len() - i,
    {
        s.push(chars[i]);
        i += 1;
    }
    s
}

/// The character that stands for the digit `d`, for `d` from 0 to 9.
pub open spec fn digit_char(d: int) -> char {
    ('0' as int + d) as char
}

/// The decimal notation of `n`, without leading zeros.
pub open spec fn decimal(n: nat) -> Seq<char>
    decreases n,
{
    if n < 10 {
        seq![digit_char(n as int)]
    } else {
        decimal(n / 10).push(digit_char((n % 10) as int))
    }
}

/// The character that stands for the digit `d`.
pub fn digit_to_char(d: u8) -> (c: char)
    requires
        d < 10,
    ensures
        c == digit_char(d as int),
{
    (48u8 + d) as char
}

/// Writes `n` in decimal notation.
pub fn decimal_string(n: usize) -> (s: String)
    ensures
        s@ == decimal(n as nat),
{
    // The digits from the last to the first.
    let mut reversed: Vec<char> = Vec::new();
    let mut rest: usize = n;
    while rest >= 10
        invariant
            decimal(n as nat) == decimal(rest as nat) + reversed@.reverse(),
        decreases rest,
    {
        proof {
            let d = digit_char((rest % 10) as int);
            assert(reversed@.push(d).reverse() =~= seq![d] + reversed@.reverse());
            assert(decimal((rest / 10) as nat).push(d) + reversed@.reverse() =~= decimal(
                (rest / 10) as nat,
            ) + (seq![d] + reversed@.reverse()));
        }
        reversed.push(digit_to_char((rest % 10) as u8));
        rest = rest / 10;
    }
    let mut s = String::new();
    s.push(digit_to_char(rest as u8));
    let mut i: usize = reversed.len();
    while i > 0
        invariant
            i <= reversed.len(),
            s@ == decimal(rest as nat) + reversed@.reverse().take(reversed.len() - i),
            rest < 10,
        decreases i,
    {
        i -= 1;
        proof {
            let r = reversed@.reverse();
            let k = reversed.len() - i - 1;
            assert(r.take(k + 1) =~= r.take(k).push(r[k]));
            assert(r[k] == reversed@[i as int]);
            assert((decimal(rest as nat) + r.take(k)).push(r[k]) =~= decimal(rest as nat) + r.take(
                k + 1,
            ));
        }
        s.push(reversed[i]);
    }
    proof {
        assert(reversed@.reverse().take(reversed.len() as int) =~= reversed@.reverse());
    }
    s
}

} // verus!
