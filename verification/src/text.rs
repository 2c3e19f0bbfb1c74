//! Character-level helpers shared by the tokenizer and the keyword table.

use vstd::prelude::*;
use vstd::std_specs::iter::IteratorSpec;

verus! {

broadcast use vstd::string::next_postcondition;

/// Collects the characters of a string slice into a vector, in order.
pub fn chars_vec(s: &str) -> (r: Vec<char>)
    ensures
        r@ == s@,
{
    let mut it = s.chars();
    let mut r: Vec<char> = Vec::new();
    loop
        invariant
            it.obeys_prophetic_iter_laws(),
            it.decrease() is Some,
            r@ + it.remaining() == s@,
        decreases it.decrease()->0,
    {
        match it.next() {
            Some(c) => {
                r.push(c);
            },
            None => {
                proof {
                    assert(r@ =~= s@);
                }
                return r;
            },
        }
    }
}

/// Relies on `String::push`: appends the given character to the end of
/// the string.
#[verifier::external_body]
fn push_char(s: &mut String, c: char)
    ensures
        final(s)@ == old(s)@.push(c),
{
    s.push(c);
}

/// Builds an owned string holding exactly the given characters, in order.
pub fn string_of(cs: &Vec<char>) -> (s: String)
    ensures
        s@ == cs@,
{
    let mut s = String::new();
    let mut i: usize = 0;
    while i < cs.len()
        invariant
            i <= cs@.len(),
            s@ == cs@.take(i as int),
        decreases cs@.len() - i,
    {
        push_char(&mut s, cs[i]);
        proof {
            assert(cs@.take(i as int).push(cs@[i as int]) =~= cs@.take(i + 1));
        }
        i = i + 1;
    }
    proof {
        assert(cs@.take(cs@.len() as int) =~= cs@);
    }
    s
}

/// Whether a character is an ASCII decimal digit.
pub open spec fn is_digit(c: char) -> bool {
    48 <= c as u32 && c as u32 <= 57
}

/// The numeric value of an ASCII decimal digit.
pub open spec fn digit_of(c: char) -> int {
    c as u32 - 48
}

/// Whether every character of the sequence is an ASCII decimal digit.
pub open spec fn all_digits(s: Seq<char>) -> bool {
    forall|i: int| 0 <= i < s.len() ==> is_digit(#[trigger] s[i])
}

/// The value of a digit sequence read in base ten.
pub open spec fn digits_val(s: Seq<char>) -> int
    decreases s.len(),
{
    if s.len() == 0 {
        0
    } else {
        digits_val(s.drop_last()) * 10 + digit_of(s.last())
    }
}

/// A digit sequence never reads as a negative value.
pub proof fn lemma_digits_val_nonneg(s: Seq<char>)
    requires
        all_digits(s),
    ensures
        digits_val(s) >= 0,
    decreases s.len(),
{
    if s.len() > 0 {
        assert(all_digits(s.drop_last()));
        lemma_digits_val_nonneg(s.drop_last());
    }
}

/// Reading more digits never shrinks the value: a prefix of a digit
/// sequence reads at most as large as the whole.
pub proof fn lemma_digits_val_prefix(s: Seq<char>, k: int)
    requires
        all_digits(s),
        0 <= k <= s.len(),
    ensures
        digits_val(s.take(k)) <= digits_val(s),
    decreases s.len() - k,
{
    if k < s.len() {
        lemma_digits_val_prefix(s, k + 1);
        assert(s.take(k + 1).drop_last() =~= s.take(k));
        assert(all_digits(s.take(k)));
        lemma_digits_val_nonneg(s.take(k));
        assert(digits_val(s.take(k + 1)) == digits_val(s.take(k)) * 10 + digit_of(s[k]));
    } else {
        assert(s.take(k) =~= s);
    }
}

/// Reads `cs[from..]` as a base-ten digit string, if it is one and its
/// value does not exceed `bound`.
fn digits_to_u64(cs: &Vec<char>, from: usize, bound: u64) -> (r: Option<u64>)
    requires
        from <= cs@.len(),
        bound >= 9,
    ensures
        r is Some <==> (cs@.skip(from as int).len() > 0 && all_digits(cs@.skip(from as int))
            && digits_val(cs@.skip(from as int)) <= bound),
        r matches Some(v) ==> v == digits_val(cs@.skip(from as int)),
{
    let ghost tail = cs@.skip(from as int);
    if from == cs.len() {
        return None;
    }
    let mut i: usize = from;
    let mut acc: u64 = 0;
    while i < cs.len()
        invariant
            from <= i <= cs@.len(),
            from < cs@.len(),
            tail == cs@.skip(from as int),
            all_digits(tail.take(i - from)),
            acc == digits_val(tail.take(i - from)),
            acc <= bound,
            bound >= 9,
        decreases cs@.len() - i,
    {
        let c = cs[i];
        let d32 = c as u32;
        proof {
            assert(tail[i - from] == cs@[i as int]);
        }
        if d32 < 48 || d32 > 57 {
            proof {
                assert(!is_digit(tail[i - from]));
            }
            return None;
        }
        let d = (d32 - 48) as u64;
        proof {
            assert(tail.take(i - from + 1).drop_last() =~= tail.take(i - from));
            assert(tail.take(i - from + 1).last() == tail[i - from]);
            assert(digits_val(tail.take(i - from + 1)) == acc * 10 + d);
        }
        if acc > (bound - d) / 10 {
            proof {
                assert(acc * 10 + d > bound) by (nonlinear_arith)
                    requires
                        acc > (bound - d) / 10,
                        d <= 9,
                        d <= bound,
                        (bound - d) / 10 >= 0,
                ;
                if all_digits(tail) {
                    lemma_digits_val_prefix(tail, i - from + 1);
                }
            }
            return None;
        }
        proof {
            assert(acc * 10 + d <= bound) by (nonlinear_arith)
                requires
                    acc <= (bound - d) / 10,
                    d <= 9,
                    d <= bound,
            ;
        }
        acc = acc * 10 + d;
        i = i + 1;
    }
    proof {
        assert(tail.take(i - from) =~= tail);
    }
    Some(acc)
}

/// Whether the sequence begins with an explicit sign character.
pub open spec fn has_sign(s: Seq<char>) -> bool {
    s.len() > 0 && (s[0] == '-' || s[0] == '+')
}

/// The digits of a signed decimal literal, the sign removed.
pub open spec fn int_body(s: Seq<char>) -> Seq<char> {
    if has_sign(s) {
        s.drop_first()
    } else {
        s
    }
}

/// Whether the literal denotes a negative value.
pub open spec fn is_negative(s: Seq<char>) -> bool {
    s.len() > 0 && s[0] == '-'
}

/// The largest magnitude a signed 64-bit value of this sign can carry.
pub open spec fn int_mag_bound(s: Seq<char>) -> int {
    if is_negative(s) {
        0x8000_0000_0000_0000
    } else {
        0x7fff_ffff_ffff_ffff
    }
}

/// Whether the sequence is a decimal integer literal whose value fits a
/// signed 64-bit integer: an optional sign followed by at least one
/// digit.
pub open spec fn is_number_literal(s: Seq<char>) -> bool {
    int_body(s).len() > 0 && all_digits(int_body(s)) && digits_val(int_body(s)) <= int_mag_bound(s)
}

/// The value of a decimal integer literal.
pub open spec fn number_value(s: Seq<char>) -> int {
    if is_negative(s) {
        -digits_val(int_body(s))
    } else {
        digits_val(int_body(s))
    }
}

/// Reads a whole character sequence as a decimal integer literal.
pub fn parse_number(cs: &Vec<char>) -> (r: Option<i64>)
    ensures
        r is Some <==> is_number_literal(cs@),
        r matches Some(v) ==> v as int == number_value(cs@),
{
    if cs.len() == 0 {
        return None;
    }
    let first = cs[0];
    let neg = first == '-';
    let from: usize = if first == '-' || first == '+' {
        1
    } else {
        0
    };
    proof {
        if from == 1 {
            assert(cs@.skip(1) =~= cs@.drop_first());
        } else {
            assert(cs@.skip(0) =~= cs@);
        }
    }
    let bound: u64 = if neg {
        0x8000_0000_0000_0000
    } else {
        0x7fff_ffff_ffff_ffff
    };
    match digits_to_u64(cs, from, bound) {
        None => None,
        Some(mag) => {
            if neg {
                if mag == 0x8000_0000_0000_0000 {
                    Some(i64::MIN)
                } else {
                    Some(-(mag as i64))
                }
            } else {
                Some(mag as i64)
            }
        },
    }
}

/// Whether a character is ASCII whitespace.
pub open spec fn is_ascii_ws(c: char) -> bool {
    c == ' ' || c == '\t' || c == '\n' || c == '\r'
}

/// The sequence with its leading ASCII whitespace removed.
pub open spec fn trim_start(s: Seq<char>) -> Seq<char>
    decreases s.len(),
{
    if s.len() > 0 && is_ascii_ws(s[0]) {
        trim_start(s.drop_first())
    } else {
        s
    }
}

/// The sequence with its trailing ASCII whitespace removed.
pub open spec fn trim_end(s: Seq<char>) -> Seq<char>
    decreases s.len(),
{
    if s.len() > 0 && is_ascii_ws(s.last()) {
        trim_end(s.drop_last())
    } else {
        s
    }
}

/// The sequence with ASCII whitespace removed from both ends.
pub open spec fn trimmed(s: Seq<char>) -> Seq<char> {
    trim_end(trim_start(s))
}

/// Decides whether a character is ASCII whitespace.
fn is_ws(c: char) -> (r: bool)
    ensures
        r == is_ascii_ws(c),
{
    c == ' ' || c == '\t' || c == '\n' || c == '\r'
}

/// Finds the bounds of the non-whitespace core of a character vector:
/// the characters at `r.0 .. r.1` are the trimmed text.
pub fn trim_bounds(cs: &Vec<char>) -> (r: (usize, usize))
    ensures
        r.0 <= r.1 <= cs@.len(),
        cs@.subrange(r.0 as int, r.1 as int) == trimmed(cs@),
{
    let mut lo: usize = 0;
    proof {
        assert(cs@.skip(0) =~= cs@);
    }
    while lo < cs.len() && is_ws(cs[lo])
        invariant
            lo <= cs@.len(),
            trim_start(cs@) == trim_start(cs@.skip(lo as int)),
        decreases cs@.len() - lo,
    {
        proof {
            assert(cs@.skip(lo as int).drop_first() =~= cs@.skip(lo + 1));
        }
        lo = lo + 1;
    }
    proof {
        if lo == cs@.len() {
            assert(cs@.skip(lo as int) =~= Seq::<char>::empty());
        }
        assert(trim_start(cs@) == cs@.skip(lo as int));
    }
    let mut hi: usize = cs.len();
    while hi > lo && is_ws(cs[hi - 1])
        invariant
            lo <= hi <= cs@.len(),
            trim_start(cs@) == cs@.skip(lo as int),
            trim_end(cs@.skip(lo as int)) == trim_end(cs@.subrange(lo as int, hi as int)),
        decreases hi,
    {
        proof {
            assert(cs@.subrange(lo as int, hi as int).drop_last() =~= cs@.subrange(
                lo as int,
                hi - 1,
            ));
            assert(cs@.subrange(lo as int, hi as int).last() == cs@[hi - 1]);
        }
        hi = hi - 1;
    }
    proof {
        if hi == lo {
            assert(cs@.subrange(lo as int, hi as int) =~= Seq::<char>::empty());
        }
        assert(cs@.skip(cs@.len() as int) =~= Seq::<char>::empty());
        assert(trim_end(cs@.subrange(lo as int, hi as int)) == cs@.subrange(
            lo as int,
            hi as int,
        ));
    }
    (lo, hi)
}

/// Case-insensitive character match against a reference character that
/// is not an ASCII capital: an ASCII capital letter matches its
/// lowercase form.
pub open spec fn ci_eq(c: char, l: char) -> bool {
    c == l || (65 <= c as u32 && c as u32 <= 90 && c as u32 + 32 == l as u32)
}

/// Case-insensitive sequence match against a reference word.
pub open spec fn matches_ci(s: Seq<char>, lit: Seq<char>) -> bool {
    s.len() == lit.len() && (forall|i: int| 0 <= i < s.len() ==> ci_eq(#[trigger] s[i], lit[i]))
}

/// Decides `ci_eq` on two characters.
pub fn ci_char(c: char, l: char) -> (r: bool)
    ensures
        r == ci_eq(c, l),
{
    let cu = c as u32;
    let lu = l as u32;
    cu == lu || (65 <= cu && cu <= 90 && cu + 32 == lu)
}

} // verus!
