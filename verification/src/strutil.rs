//! Verified string building: appending characters, decimal rendering of
//! integers, and placeholder replacement.

use vstd::prelude::*;
use vstd::string::*;

verus! {

/// Relies on `String::push`: appends the given character to the end of the
/// string.
#[verifier::external_body]
pub fn push_char(s: &mut String, c: char)
    ensures
        final(s)@ == old(s)@.push(c),
{
    s.push(c);
}

/// The character for one decimal digit.
pub open spec fn digit_char(d: int) -> char {
    if d == 0 {
        '0'
    } else if d == 1 {
        '1'
    } else if d == 2 {
        '2'
    } else if d == 3 {
        '3'
    } else if d == 4 {
        '4'
    } else if d == 5 {
        '5'
    } else if d == 6 {
        '6'
    } else if d == 7 {
        '7'
    } else if d == 8 {
        '8'
    } else {
        '9'
    }
}

/// The decimal digits of a non-negative number, most significant first.
pub open spec fn spec_dec_digits(n: int) -> Seq<char>
    decreases n,
{
    if n < 10 {
        seq![digit_char(n)]
    } else {
        spec_dec_digits(n / 10) + seq![digit_char(n % 10)]
    }
}

/// The decimal form of an integer, a minus sign first for negative values.
pub open spec fn spec_i32_string(n: int) -> Seq<char> {
    if n < 0 {
        seq!['-'] + spec_dec_digits(-n)
    } else {
        spec_dec_digits(n)
    }
}

/// Appends the decimal digits of `n`, most significant first.
fn push_dec_digits(s: &mut String, n: u64)
    ensures
        final(s)@ == old(s)@ + spec_dec_digits(n as int),
    decreases n,
{
    if n >= 10 {
        push_dec_digits(s, n / 10);
    }
    let d = n % 10;
    let c: char = if d == 0 {
        '0'
    } else if d == 1 {
        '1'
    } else if d == 2 {
        '2'
    } else if d == 3 {
        '3'
    } else if d == 4 {
        '4'
    } else if d == 5 {
        '5'
    } else if d == 6 {
        '6'
    } else if d == 7 {
        '7'
    } else if d == 8 {
        '8'
    } else {
        '9'
    };
    push_char(s, c);
    proof {
        assert(c == digit_char(n as int % 10));
        if n < 10 {
            assert(n as int % 10 == n as int);
            assert(final(s)@ =~= old(s)@ + spec_dec_digits(n as int));
        } else {
            assert(final(s)@ =~= old(s)@ + (spec_dec_digits(n as int / 10) + seq![
                digit_char(n as int % 10),
            ]));
        }
    }
}

/// Renders an integer in decimal, matching the ordinary display form.
pub fn i32_to_string(n: i32) -> (r: String)
    ensures
        r@ == spec_i32_string(n as int),
{
    let mut s = String::new();
    if n < 0 {
        push_char(&mut s, '-');
        let m = (-(n as i64)) as u64;
        push_dec_digits(&mut s, m);
        proof {
            assert(s@ =~= seq!['-'] + spec_dec_digits(m as int));
        }
    } else {
        push_dec_digits(&mut s, n as u64);
        proof {
            assert(s@ =~= spec_dec_digits(n as int));
        }
    }
    s
}

/// The text with every occurrence of `from` replaced by `to`, scanning left
/// to right without overlap, as the standard string replacement does.
pub open spec fn spec_replace(text: Seq<char>, from: Seq<char>, to: Seq<char>) -> Seq<char>
    decreases text.len(),
{
    if from.len() == 0 || text.len() < from.len() {
        text
    } else if text.take(from.len() as int) == from {
        to + spec_replace(text.skip(from.len() as int), from, to)
    } else {
        seq![text[0]] + spec_replace(text.skip(1), from, to)
    }
}

/// Whether `from` occurs in `text` starting at position `i`.
fn substring_matches(text: &str, i: usize, from: &str) -> (r: bool)
    requires
        i + from@.len() <= text@.len(),
    ensures
        r == (text@.subrange(i as int, i + from@.len()) == from@),
{
    let m = from.unicode_len();
    let tn = text.unicode_len();
    let mut j: usize = 0;
    while j < m
        invariant
            0 <= j <= m,
            m == from@.len(),
            tn == text@.len(),
            i + m <= text@.len(),
            forall|u: int| 0 <= u < j ==> text@[i + u] == from@[u],
        decreases m - j,
    {
        if text.get_char(i + j) != from.get_char(j) {
            proof {
                assert(text@.subrange(i as int, i + from@.len())[j as int] != from@[j as int]);
            }
            return false;
        }
        j = j + 1;
    }
    proof {
        assert(text@.subrange(i as int, i + from@.len()) =~= from@);
    }
    true
}

/// Replaces every occurrence of `from` in `text` by `to`, scanning left to
/// right without overlap.
pub fn replace_all(text: &str, from: &str, to: &str) -> (r: String)
    requires
        from@.len() >= 1,
    ensures
        r@ == spec_replace(text@, from@, to@),
{
    let n = text.unicode_len();
    let m = from.unicode_len();
    let mut out = String::new();
    let mut i: usize = 0;
    proof {
        assert(text@.skip(0) =~= text@);
    }
    while i < n
        invariant
            0 <= i <= n,
            n == text@.len(),
            m == from@.len(),
            m >= 1,
            out@ + spec_replace(text@.skip(i as int), from@, to@) == spec_replace(
                text@,
                from@,
                to@,
            ),
        decreases n - i,
    {
        let rest_len = n - i;
        let matched = if m <= rest_len {
            substring_matches(text, i, from)
        } else {
            false
        };
        proof {
            let rest = text@.skip(i as int);
            if m <= rest_len {
                assert(rest.take(m as int) =~= text@.subrange(i as int, i + m));
            }
        }
        if matched {
            out.append(to);
            proof {
                let rest = text@.skip(i as int);
                assert(rest.skip(m as int) =~= text@.skip(i + m));
                assert(out@ + spec_replace(text@.skip(i + m), from@, to@) =~= spec_replace(
                    text@,
                    from@,
                    to@,
                ));
            }
            i = i + m;
        } else {
            let c = text.get_char(i);
            push_char(&mut out, c);
            proof {
                let rest = text@.skip(i as int);
                assert(rest[0] == c);
                assert(rest.skip(1) =~= text@.skip(i + 1));
                assert(out@ + spec_replace(text@.skip(i + 1), from@, to@) =~= spec_replace(
                    text@,
                    from@,
                    to@,
                ));
            }
            i = i + 1;
        }
    }
    proof {
        assert(text@.skip(n as int) =~= Seq::<char>::empty());
        assert(out@ =~= spec_replace(text@, from@, to@));
    }
    out
}

} // verus!
