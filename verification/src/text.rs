//! Text building blocks: characters appended to a `String`, and numbers
//! written out in a radix.

use vstd::prelude::*;

verus! {

/// `String::push` of the standard library: appends the given character to
/// the end of the string and leaves the rest as it was.
pub assume_specification[ String::push ](s: &mut String, ch: char)
    ensures
        final(s)@ == old(s)@.push(ch),
;

/// What an optional string holds, as a sequence of characters.
pub open spec fn text_of(s: Option<String>) -> Option<Seq<char>> {
    match s {
        Some(t) => Some(t@),
        None => None,
    }
}

/// What a list of strings holds.
pub open spec fn texts_of(list: Seq<String>) -> Seq<Seq<char>> {
    list.map_values(|s: String| s@)
}

/// The character for one digit: `0` to `9`, then `a` to `f`.
pub open spec fn digit_char(d: nat) -> char {
    if d < 10 {
        ('0' as u8 + d) as u8 as char
    } else {
        ('a' as u8 + (d - 10)) as u8 as char
    }
}

/// The digits of `n` in the given radix, most significant first, without
/// leading zeros; zero is the single digit `0`.
pub open spec fn digits(n: nat, radix: nat) -> Seq<char>
    decreases n,
    via digits_shrink
{
    if radix < 2 || n < radix {
        seq![digit_char(n)]
    } else {
        digits(n / radix, radix).push(digit_char(n % radix))
    }
}

#[via_fn]
proof fn digits_shrink(n: nat, radix: nat) {
    if radix >= 2 && n >= radix {
        assert(n / radix < n) by (nonlinear_arith)
            requires
                radix >= 2,
                n >= radix,
        ;
    }
}

fn digit(d: u64) -> (c: char)
    requires
        d < 16,
    ensures
        c == digit_char(d as nat),
{
    if d < 10 {
        (48u8 + d as u8) as char
    } else {
        (87u8 + d as u8) as char
    }
}

fn radix_text(n: u64, radix: u64) -> (text: String)
    requires
        2 <= radix <= 16,
    ensures
        text@ == digits(n as nat, radix as nat),
{
    let mut low_first: Vec<char> = Vec::new();
    let mut rest: u64 = n;
    while rest >= radix
        invariant
            2 <= radix <= 16,
            digits(n as nat, radix as nat) == digits(rest as nat, radix as nat)
                + low_first@.reverse(),
        decreases rest,
    {
        let ghost before = low_first@;
        let c = digit(rest % radix);
        low_first.push(c);
        assert(low_first@.reverse() =~= seq![c] + before.reverse());
        assert(digits(rest as nat, radix as nat) == digits((rest / radix) as nat, radix as nat).push(c));
        rest = rest / radix;
    }
    let mut text = String::new();
    text.push(digit(rest));
    let mut i: usize = low_first.len();
    while i > 0
        invariant
            i <= low_first.len(),
            text@ == digits(rest as nat, radix as nat) + low_first@.reverse().take(
                low_first.len() - i,
            ),
        decreases i,
    {
        i = i - 1;
        text.push(low_first[i]);
        assert(low_first@.reverse().take(low_first.len() - i) =~= low_first@.reverse().take(
            low_first.len() - i - 1,
        ).push(low_first@[i as int]));
    }
    assert(low_first@.reverse().take(low_first.len() as int) =~= low_first@.reverse());
    text
}

/// The number in decimal.
pub fn decimal_text(n: u64) -> (text: String)
    ensures
        text@ == digits(n as nat, 10),
{
    radix_text(n, 10)
}

/// The number in lower-case hexadecimal.
pub fn hex_text(n: u64) -> (text: String)
    ensures
        text@ == digits(n as nat, 16),
{
    radix_text(n, 16)
}

} // verus!
