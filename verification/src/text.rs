//! Characters and decimal numerals: the spec-level model of decimal
//! rendering, and the executable helpers that build and scan strings with it.

use vstd::prelude::*;

verus! {

/// `c` is one of the ten decimal digit characters.
pub open spec fn is_digit(c: char) -> bool {
    '0' as u32 <= c as u32 && c as u32 <= '9' as u32
}

/// Numeric value of a digit character.
pub open spec fn digit_val(c: char) -> nat
    recommends
        is_digit(c),
{
    (c as u32 - '0' as u32) as nat
}

/// The digit character for a value below ten.
pub open spec fn digit_char(d: nat) -> char
    recommends
        d < 10,
{
    if d == 0 {
        '0'
    } else if d == 1 {
        '1'
    } else if d == 2 {
        '2'
    } else if d == 3 {
        '3'
    } else if d == 4 {
        '4'
    } else if d == 5 {
        '5'
    } else if d == 6 {
        '6'
    } else if d == 7 {
        '7'
    } else if d == 8 {
        '8'
    } else {
        '9'
    }
}

/// The decimal numeral of `n`, most significant digit first, with no sign and
/// no leading zeros (`0` itself is the single character `'0'`).
pub open spec fn dec_digits(n: nat) -> Seq<char>
    decreases n,
{
    if n < 10 {
        seq![digit_char(n)]
    } else {
        dec_digits(n / 10).push(digit_char(n % 10))
    }
}

/// The value of a digit sequence read as a decimal numeral.
pub open spec fn digits_val(d: Seq<char>) -> nat
    decreases d.len(),
{
    if d.len() == 0 {
        0
    } else {
        digits_val(d.drop_last()) * 10 + digit_val(d.last())
    }
}

/// Splits `t` into its longest digit prefix and the remainder.
pub open spec fn split_digits(t: Seq<char>) -> (Seq<char>, Seq<char>)
    decreases t.len(),
{
    if t.len() == 0 || !is_digit(t[0]) {
        (Seq::empty(), t)
    } else {
        let (d, r) = split_digits(t.drop_first());
        (seq![t[0]] + d, r)
    }
}

pub proof fn lemma_digit_char_val(d: nat)
    requires
        d < 10,
    ensures
        is_digit(digit_char(d)),
        digit_val(digit_char(d)) == d,
        d >= 1 ==> digit_char(d) != '0',
{
}

pub proof fn lemma_dec_digits_form(n: nat)
    ensures
        dec_digits(n).len() >= 1,
        forall|i: int| 0 <= i < dec_digits(n).len() ==> is_digit(#[trigger] dec_digits(n)[i]),
        n >= 1 ==> dec_digits(n)[0] != '0',
        n >= 10 ==> dec_digits(n).len() >= 2,
    decreases n,
{
    if n < 10 {
        lemma_digit_char_val(n);
    } else {
        lemma_dec_digits_form(n / 10);
        lemma_digit_char_val(n % 10);
        assert(dec_digits(n) == dec_digits(n / 10).push(digit_char(n % 10)));
        assert(dec_digits(n)[0] == dec_digits(n / 10)[0]);
        assert(forall|i: int| 0 <= i < dec_digits(n).len() ==> is_digit(#[trigger] dec_digits(n)[i]))
            by {
            assert forall|i: int| 0 <= i < dec_digits(n).len() implies is_digit(
                #[trigger] dec_digits(n)[i],
            ) by {
                if i < dec_digits(n / 10).len() {
                    assert(dec_digits(n)[i] == dec_digits(n / 10)[i]);
                } else {
                    assert(dec_digits(n)[i] == digit_char(n % 10));
                }
            }
        }
    }
}

/// Reading back the decimal numeral of `n` yields `n`.
pub proof fn lemma_digits_val_of_dec_digits(n: nat)
    ensures
        digits_val(dec_digits(n)) == n,
    decreases n,
{
    if n < 10 {
        lemma_digit_char_val(n);
        let w = seq![digit_char(n)];
        assert(dec_digits(n) == w);
        assert(w.drop_last() =~= Seq::<char>::empty());
        assert(w.last() == digit_char(n));
        assert(digits_val(w) == digits_val(w.drop_last()) * 10 + digit_val(w.last()));
        assert(digits_val(Seq::<char>::empty()) == 0);
    } else {
        lemma_digits_val_of_dec_digits(n / 10);
        lemma_digit_char_val(n % 10);
        let w = dec_digits(n / 10).push(digit_char(n % 10));
        assert(dec_digits(n) == w);
        assert(w.drop_last() =~= dec_digits(n / 10));
        assert(w.last() == digit_char(n % 10));
        assert(digits_val(w) == digits_val(dec_digits(n / 10)) * 10 + digit_val(
            digit_char(n % 10),
        ));
        assert(n == (n / 10) * 10 + n % 10) by {
            vstd::arithmetic::div_mod::lemma_fundamental_div_mod(n as int, 10);
        }
    }
}

/// `split_digits` takes exactly the digit block it is handed.
pub proof fn lemma_split_digits_exact(d: Seq<char>, rest: Seq<char>)
    requires
        forall|i: int| 0 <= i < d.len() ==> is_digit(#[trigger] d[i]),
        rest.len() == 0 || !is_digit(rest[0]),
    ensures
        split_digits(d + rest) == (d, rest),
    decreases d.len(),
{
    if d.len() == 0 {
        assert(d + rest == rest);
        if rest.len() == 0 {
            assert(split_digits(rest) == (Seq::<char>::empty(), rest));
        }
        assert(split_digits(d + rest).0 == d);
    } else {
        assert((d + rest)[0] == d[0]);
        assert((d + rest).drop_first() == d.drop_first() + rest);
        lemma_split_digits_exact(d.drop_first(), rest);
        assert(seq![(d + rest)[0]] + d.drop_first() == d);
    }
}

/// The remainder `split_digits` returns is the input less its digit prefix.
pub proof fn lemma_split_digits_rest(t: Seq<char>)
    ensures
        split_digits(t).0.len() <= t.len(),
        split_digits(t).1 == t.skip(split_digits(t).0.len() as int),
    decreases t.len(),
{
    if t.len() == 0 || !is_digit(t[0]) {
        assert(t.skip(0) =~= t);
    } else {
        lemma_split_digits_rest(t.drop_first());
        let d2 = split_digits(t.drop_first()).0;
        assert(t.drop_first() =~= t.skip(1));
        lemma_skip_skip(t, 1, d2.len() as int);
        assert(split_digits(t).0.len() == 1 + d2.len());
    }
}

/// Dropping `i` characters and then `j` more drops `i + j`.
pub proof fn lemma_skip_skip(s: Seq<char>, i: int, j: int)
    requires
        0 <= i,
        0 <= j,
        i + j <= s.len(),
    ensures
        s.skip(i).skip(j) == s.skip(i + j),
{
    assert(s.skip(i).skip(j) =~= s.skip(i + j));
}

/// Scans the digit run of `s` that begins at `start`: returns the position
/// just past it, and the run's value, saturated just above `u32::MAX` so a
/// caller can still tell an overflowing numeral from one in range.
pub fn scan_digits(s: &str, start: usize) -> (r: (u64, usize))
    requires
        start <= s@.len(),
    ensures
        ({
            let (d, rest) = split_digits(s@.skip(start as int));
            &&& start <= r.1 <= s@.len()
            &&& r.1 == start + d.len()
            &&& (digits_val(d) <= u32::MAX ==> r.0 == digits_val(d))
            &&& (digits_val(d) > u32::MAX ==> r.0 == 0x1_0000_0000u64)
        }),
{
    let n = s.unicode_len();
    let mut i: usize = start;
    let mut val: u64 = 0;
    assert(s@.subrange(start as int, start as int) =~= Seq::<char>::empty());
    loop
        invariant
            n == s@.len(),
            start <= i <= n,
            forall|k: int| start <= k < i ==> is_digit(#[trigger] s@[k]),
            digits_val(s@.subrange(start as int, i as int)) <= u32::MAX ==> val == digits_val(
                s@.subrange(start as int, i as int),
            ),
            digits_val(s@.subrange(start as int, i as int)) > u32::MAX ==> val
                == 0x1_0000_0000u64,
            val <= 0x1_0000_0000u64,
        ensures
            n == s@.len(),
            start <= i <= n,
            forall|k: int| start <= k < i ==> is_digit(#[trigger] s@[k]),
            i < n ==> !is_digit(s@[i as int]),
            digits_val(s@.subrange(start as int, i as int)) <= u32::MAX ==> val == digits_val(
                s@.subrange(start as int, i as int),
            ),
            digits_val(s@.subrange(start as int, i as int)) > u32::MAX ==> val
                == 0x1_0000_0000u64,
        decreases n - i,
    {
        if i >= n {
            break ;
        }
        let c = s.get_char(i);
        let u = c as u32;
        if !('0' as u32 <= u && u <= '9' as u32) {
            break ;
        }
        let dv = (c as u32 - '0' as u32) as u64;
        proof {
            let d0 = s@.subrange(start as int, i as int);
            let d1 = s@.subrange(start as int, i + 1);
            assert(d1.drop_last() =~= d0);
            assert(d1.last() == s@[i as int]);
            assert(digits_val(d1) == digits_val(d0) * 10 + digit_val(s@[i as int]));
        }
        if val > 0xFFFF_FFFFu64 {
            val = 0x1_0000_0000u64;
        } else {
            let w = val * 10 + dv;
            if w > 0xFFFF_FFFFu64 {
                val = 0x1_0000_0000u64;
            } else {
                val = w;
            }
        }
        i += 1;
    }
    proof {
        let d = s@.subrange(start as int, i as int);
        let rest = s@.skip(i as int);
        assert(s@.skip(start as int) =~= d + rest);
        if i < n {
            assert(!is_digit(rest[0]));
        }
        lemma_split_digits_exact(d, rest);
    }
    (val, i)
}

/// Relies on `String::push`: appends the single character `c` at the end.
#[verifier::external_body]
pub(crate) fn push_char(s: &mut String, c: char)
    ensures
        final(s)@ == old(s)@.push(c),
{
    s.push(c);
}

fn digit_char_exec(d: u32) -> (c: char)
    requires
        d < 10,
    ensures
        c == digit_char(d as nat),
{
    if d == 0 {
        '0'
    } else if d == 1 {
        '1'
    } else if d == 2 {
        '2'
    } else if d == 3 {
        '3'
    } else if d == 4 {
        '4'
    } else if d == 5 {
        '5'
    } else if d == 6 {
        '6'
    } else if d == 7 {
        '7'
    } else if d == 8 {
        '8'
    } else {
        '9'
    }
}

/// Appends the decimal numeral of `n` to `out`.
pub fn append_dec(out: &mut String, n: u32)
    ensures
        final(out)@ == old(out)@ + dec_digits(n as nat),
    decreases n,
{
    if n < 10 {
        push_char(out, digit_char_exec(n));
        assert(out@ == old(out)@ + dec_digits(n as nat));
    } else {
        append_dec(out, n / 10);
        push_char(out, digit_char_exec(n % 10));
        assert(out@ == old(out)@ + dec_digits((n / 10) as nat).push(digit_char((n % 10) as nat)));
        assert(old(out)@ + dec_digits((n / 10) as nat).push(digit_char((n % 10) as nat)) == old(
            out,
        )@ + dec_digits(n as nat)) by {
            assert(dec_digits(n as nat) == dec_digits((n as nat) / 10).push(
                digit_char((n as nat) % 10),
            ));
        }
    }
}

} // verus!
