//! Validation of the command-line arguments the registry consumes: a
//! non-empty user, a positive decimal id, and a host that is a well-formed
//! domain name (the caller may accept a literal IP address instead).

use vstd::prelude::*;

use crate::text::{digits_val, is_digit, lemma_skip_skip, scan_digits, split_digits};

verus! {

/// The value a decimal id string denotes: an optional leading `+`, then at
/// least one digit and nothing else, with a value that fits in `u32`.
pub open spec fn parse_u32_str(s: Seq<char>) -> Option<u32> {
    let body = if s.len() > 0 && s[0] == '+' {
        s.drop_first()
    } else {
        s
    };
    let (d, r) = split_digits(body);
    if d.len() == 0 || r.len() != 0 {
        None
    } else if digits_val(d) > u32::MAX {
        None
    } else {
        Some(digits_val(d) as u32)
    }
}

/// Accepts a non-empty user name and rejects an empty one.
pub fn parse_user(s: &str) -> (r: Result<String, String>)
    ensures
        match r {
            Ok(u) => s@.len() > 0 && u@ == s@,
            Err(_) => s@.len() == 0,
        },
{
    if s.is_empty() {
        Err(String::from_str("user cannot be empty"))
    } else {
        Ok(s.to_owned())
    }
}

/// Accepts a decimal id of at least one; rejects zero, malformed text and
/// values that do not fit.
pub fn parse_id(s: &str) -> (r: Result<u32, String>)
    ensures
        match r {
            Ok(n) => parse_u32_str(s@) == Some(n) && n >= 1,
            Err(_) => parse_u32_str(s@) is None || parse_u32_str(s@) == Some(0u32),
        },
{
    let n = s.unicode_len();
    let start: usize = if n > 0 && s.get_char(0) == '+' {
        1
    } else {
        0
    };
    proof {
        if start == 1 {
            assert(s@.drop_first() =~= s@.skip(1));
        } else {
            assert(s@ =~= s@.skip(0));
        }
    }
    let (val, end) = scan_digits(s, start);
    let ghost body = s@.skip(start as int);
    let ghost d = split_digits(body).0;
    let ghost rest = split_digits(body).1;
    if end == start {
        assert(d.len() == 0);
        return Err(String::from_str("invalid id"));
    }
    if end != n {
        proof {
            crate::text::lemma_split_digits_rest(body);
            assert(rest.len() == body.len() - d.len());
        }
        return Err(String::from_str("invalid id"));
    }
    proof {
        crate::text::lemma_split_digits_rest(body);
        assert(rest.len() == 0);
    }
    if val > 0xFFFF_FFFFu64 {
        assert(digits_val(d) > u32::MAX);
        return Err(String::from_str("invalid id"));
    }
    assert(digits_val(d) <= u32::MAX);
    let v = val as u32;
    if v == 0 {
        return Err(String::from_str("id must be >= 1"));
    }
    Ok(v)
}

/// An ASCII letter.
pub open spec fn is_alpha(c: char) -> bool {
    ('a' as u32 <= c as u32 && c as u32 <= 'z' as u32) || ('A' as u32 <= c as u32 && c as u32
        <= 'Z' as u32)
}

/// An ASCII letter or digit.
pub open spec fn is_alnum(c: char) -> bool {
    is_alpha(c) || is_digit(c)
}

/// A character a label may contain anywhere but at its ends.
pub open spec fn is_label_char(c: char) -> bool {
    is_alnum(c) || c == '-'
}

/// A domain label: one to sixty-three characters, letters, digits and
/// hyphens, beginning and ending with a letter or digit.
pub open spec fn is_label(s: Seq<char>) -> bool {
    &&& 1 <= s.len() <= 63
    &&& is_alnum(s[0])
    &&& is_alnum(s[s.len() - 1])
    &&& forall|i: int| 0 <= i < s.len() ==> is_label_char(#[trigger] s[i])
}

/// A top-level segment: at least two letters.
pub open spec fn is_tld(s: Seq<char>) -> bool {
    s.len() >= 2 && forall|i: int| 0 <= i < s.len() ==> is_alpha(#[trigger] s[i])
}

/// The part of a domain after some dot: either the final top-level segment,
/// or a label, a dot, and another such part.
pub open spec fn is_domain_tail(s: Seq<char>) -> bool
    decreases s.len(),
{
    match s.index_of_first('.') {
        None => is_tld(s),
        Some(i) => if 0 <= i < s.len() {
            is_label(s.take(i)) && is_domain_tail(s.skip(i + 1))
        } else {
            false
        },
    }
}

/// A well-formed domain name: one or more dot-terminated labels followed by
/// an alphabetic top-level segment of at least two characters.
pub open spec fn is_valid_domain_spec(s: Seq<char>) -> bool {
    match s.index_of_first('.') {
        None => false,
        Some(i) => if 0 <= i < s.len() {
            is_label(s.take(i)) && is_domain_tail(s.skip(i + 1))
        } else {
            false
        },
    }
}

/// The position of the first dot at or after `from`, or the length when
/// there is none.
fn find_dot(s: &str, from: usize) -> (j: usize)
    requires
        from <= s@.len(),
    ensures
        from <= j <= s@.len(),
        forall|q: int| from <= q < j ==> s@[q] != '.',
        j < s@.len() ==> s@[j as int] == '.',
{
    let n = s.unicode_len();
    let mut j = from;
    loop
        invariant
            n == s@.len(),
            from <= j <= n,
            forall|q: int| from <= q < j ==> s@[q] != '.',
        ensures
            from <= j <= n,
            forall|q: int| from <= q < j ==> s@[q] != '.',
            j < n ==> s@[j as int] == '.',
        decreases n - j,
    {
        if j >= n {
            break ;
        }
        if s.get_char(j) == '.' {
            break ;
        }
        j += 1;
    }
    j
}

/// Checks `s[a..b]` against `is_label`.
fn check_label(s: &str, a: usize, b: usize) -> (r: bool)
    requires
        a <= b <= s@.len(),
    ensures
        r == is_label(s@.subrange(a as int, b as int)),
{
    let ghost seg = s@.subrange(a as int, b as int);
    if b - a < 1 || b - a > 63 {
        return false;
    }
    let mut k = a;
    while k < b
        invariant
            a <= k <= b <= s@.len(),
            1 <= b - a <= 63,
            forall|q: int| a <= q < k ==> is_label_char(#[trigger] s@[q]),
            k > a ==> is_alnum(s@[a as int]),
            k == b ==> is_alnum(s@[b - 1]),
        decreases b - k,
    {
        let c = s.get_char(k);
        let u = c as u32;
        let alnum = ('a' as u32 <= u && u <= 'z' as u32) || ('A' as u32 <= u && u <= 'Z' as u32)
            || ('0' as u32 <= u && u <= '9' as u32);
        if !(alnum || c == '-') {
            assert(s@.subrange(a as int, b as int)[k - a] == s@[k as int]);
            return false;
        }
        if (k == a || k + 1 == b) && !alnum {
            assert(k == a ==> s@.subrange(a as int, b as int)[0] == s@[k as int]);
            assert(k + 1 == b ==> s@.subrange(a as int, b as int)[b - a - 1] == s@[k as int]);
            return false;
        }
        k += 1;
    }
    proof {
        assert(seg[0] == s@[a as int]);
        assert(seg[seg.len() - 1] == s@[b - 1]);
        assert forall|i: int| 0 <= i < seg.len() implies is_label_char(#[trigger] seg[i]) by {
            assert(seg[i] == s@[a + i]);
        }
    }
    true
}

/// Checks `s[a..b]` against `is_tld`.
fn check_tld(s: &str, a: usize, b: usize) -> (r: bool)
    requires
        a <= b <= s@.len(),
    ensures
        r == is_tld(s@.subrange(a as int, b as int)),
{
    let ghost seg = s@.subrange(a as int, b as int);
    if b - a < 2 {
        return false;
    }
    let mut k = a;
    while k < b
        invariant
            a <= k <= b <= s@.len(),
            2 <= b - a,
            forall|q: int| a <= q < k ==> is_alpha(#[trigger] s@[q]),
        decreases b - k,
    {
        let c = s.get_char(k);
        let u = c as u32;
        if !(('a' as u32 <= u && u <= 'z' as u32) || ('A' as u32 <= u && u <= 'Z' as u32)) {
            assert(s@.subrange(a as int, b as int)[k - a] == s@[k as int]);
            return false;
        }
        k += 1;
    }
    proof {
        assert forall|i: int| 0 <= i < seg.len() implies is_alpha(#[trigger] seg[i]) by {
            assert(seg[i] == s@[a + i]);
        }
    }
    true
}

/// Decides `is_domain_tail` for the part of `s` that begins at `pos`.
fn check_domain_tail(s: &str, pos: usize) -> (r: bool)
    requires
        pos <= s@.len(),
    ensures
        r == is_domain_tail(s@.skip(pos as int)),
    decreases s@.len() - pos,
{
    let n = s.unicode_len();
    let j = find_dot(s, pos);
    let ghost u = s@.skip(pos as int);
    proof {
        u.index_of_first_ensures('.');
    }
    if j == n {
        proof {
            assert(forall|q: int| 0 <= q < u.len() ==> u[q] == s@[pos + q]);
            assert(!u.contains('.')) by {
                assert(forall|q: int| 0 <= q < u.len() ==> u[q] != '.');
            }
            assert(u =~= s@.subrange(pos as int, n as int));
        }
        check_tld(s, pos, n)
    } else {
        proof {
            assert(u[j - pos] == s@[j as int]);
            assert(u.contains('.')) by {
                assert(u[j - pos] == '.');
            }
            let idx = u.index_of_first('.').unwrap();
            assert(forall|q: int| 0 <= q < j - pos ==> u[q] == s@[pos + q] && u[q] != '.');
            assert(idx == j - pos) by {
                if idx < j - pos {
                    assert(u[idx] != '.');
                } else if idx > j - pos {
                    assert(u[j - pos] != '.');
                }
            }
            assert(u.take(j - pos) =~= s@.subrange(pos as int, j as int));
            lemma_skip_skip(s@, pos as int, j - pos + 1);
            assert(u.skip(j - pos + 1) == s@.skip(j + 1));
        }
        if !check_label(s, pos, j) {
            return false;
        }
        check_domain_tail(s, j + 1)
    }
}

/// Decides whether `host` is a well-formed domain name.
pub fn is_valid_domain(host: &str) -> (r: bool)
    ensures
        r == is_valid_domain_spec(host@),
{
    let n = host.unicode_len();
    let j = find_dot(host, 0);
    proof {
        host@.index_of_first_ensures('.');
    }
    if j == n {
        proof {
            assert(!host@.contains('.')) by {
                assert(forall|q: int| 0 <= q < host@.len() ==> host@[q] != '.');
            }
        }
        return false;
    }
    proof {
        assert(host@.contains('.')) by {
            assert(host@[j as int] == '.');
        }
        let idx = host@.index_of_first('.').unwrap();
        assert(idx == j) by {
            if idx < j {
                assert(host@[idx] != '.');
            } else if idx > j {
                assert(host@[j as int] != '.');
            }
        }
        assert(host@.take(j as int) =~= host@.subrange(0, j as int));
        assert(host@.skip(0) =~= host@);
    }
    if !check_label(host, 0, j) {
        return false;
    }
    check_domain_tail(host, j + 1)
}

} // verus!
