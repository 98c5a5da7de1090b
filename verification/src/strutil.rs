use vstd::prelude::*;
use vstd::string::StrSliceExecFns;

verus! {

/// True exactly of the Unicode scalar values, the codepoints a `char` can hold.
pub open spec fn valid_scalar(v: u32) -> bool {
    v < 0xD800 || (0xDFFF < v && v <= 0x10FFFF)
}

/// Relies on char::from_u32: it returns `Some` exactly for Unicode scalar
/// values, and the returned character has the given codepoint.
#[verifier::external_body]
pub(crate) fn char_from_u32(v: u32) -> (r: Option<char>)
    ensures
        r is Some <==> valid_scalar(v),
        r is Some ==> r.unwrap() as u32 == v,
{
    char::from_u32(v)
}

/// Relies on String's FromIterator<char> implementation: the string holds
/// exactly the characters of the vector, in order.
#[verifier::external_body]
pub(crate) fn string_from_chars(cs: &Vec<char>) -> (r: String)
    ensures
        r@ == cs@,
{
    cs.iter().copied().collect()
}

/// The characters of a string as a vector.
pub fn chars_of(s: &str) -> (r: Vec<char>)
    ensures
        r@ == s@,
{
    let n = s.unicode_len();
    let mut r: Vec<char> = Vec::new();
    let mut i: usize = 0;
    while i < n
        invariant
            n == s@.len(),
            i <= n,
            r@ == s@.take(i as int),
        decreases n - i,
    {
        r.push(s.get_char(i));
        proof {
            assert(s@.take(i + 1 as int) =~= s@.take(i as int).push(s@[i as int]));
        }
        i = i + 1;
    }
    proof {
        assert(s@.take(n as int) =~= s@);
    }
    r
}

/// The value of a hexadecimal digit, or 16 for any other character.
pub open spec fn hex_digit_of(c: char) -> nat {
    let v = c as u32;
    if 48 <= v <= 57 {
        (v - 48) as nat
    } else if 97 <= v <= 102 {
        (v - 87) as nat
    } else if 65 <= v <= 70 {
        (v - 55) as nat
    } else {
        16
    }
}

pub open spec fn is_hex_digit(c: char) -> bool {
    hex_digit_of(c) < 16
}

/// The number a sequence of hexadecimal digits denotes, most significant first.
pub open spec fn hex_seq_val(s: Seq<char>) -> nat
    decreases s.len(),
{
    if s.len() == 0 {
        0
    } else {
        hex_seq_val(s.drop_last()) * 16 + hex_digit_of(s.last())
    }
}

/// A sequence parses as a hexadecimal u32: non-empty, all digits, in range.
pub open spec fn parses_hex(s: Seq<char>) -> bool {
    &&& s.len() > 0
    &&& forall|i: int| 0 <= i < s.len() ==> is_hex_digit(#[trigger] s[i])
    &&& hex_seq_val(s) <= u32::MAX
}

proof fn lemma_hex_prefix_monotone(s: Seq<char>, i: int)
    requires
        0 <= i <= s.len(),
    ensures
        hex_seq_val(s.take(i)) <= hex_seq_val(s),
    decreases s.len() - i,
{
    if i == s.len() {
        assert(s.take(i) =~= s);
    } else {
        lemma_hex_prefix_monotone(s, i + 1);
        assert(s.take(i + 1).drop_last() =~= s.take(i));
        assert(hex_seq_val(s.take(i + 1)) == hex_seq_val(s.take(i)) * 16 + hex_digit_of(s.take(
            i + 1,
        ).last()));
    }
}

fn hex_digit_val(c: char) -> (r: u32)
    ensures
        r as nat == hex_digit_of(c),
{
    let v = c as u32;
    if 48 <= v && v <= 57 {
        v - 48
    } else if 97 <= v && v <= 102 {
        v - 87
    } else if 65 <= v && v <= 70 {
        v - 55
    } else {
        16
    }
}

/// Parse a sequence of hexadecimal digits as a u32, most significant first.
/// Fails exactly when the sequence is empty, holds a non-digit, or denotes a
/// number that does not fit.
pub fn parse_hex_u32(s: &Vec<char>) -> (r: Option<u32>)
    ensures
        r is Some <==> parses_hex(s@),
        r is Some ==> r.unwrap() as nat == hex_seq_val(s@),
{
    if s.len() == 0 {
        return None;
    }
    let mut acc: u32 = 0;
    let mut i: usize = 0;
    while i < s.len()
        invariant
            i <= s@.len(),
            forall|j: int| 0 <= j < i ==> is_hex_digit(#[trigger] s@[j]),
            acc as nat == hex_seq_val(s@.take(i as int)),
        decreases s@.len() - i,
    {
        let d = hex_digit_val(s[i]);
        if d >= 16 {
            return None;
        }
        if acc > (u32::MAX - d) / 16 {
            proof {
                assert(s@.take(i + 1).drop_last() =~= s@.take(i as int));
                assert(hex_seq_val(s@.take(i + 1)) > u32::MAX);
                lemma_hex_prefix_monotone(s@, i + 1);
            }
            return None;
        }
        proof {
            assert(s@.take(i + 1).drop_last() =~= s@.take(i as int));
        }
        acc = acc * 16 + d;
        i = i + 1;
    }
    proof {
        assert(s@.take(s@.len() as int) =~= s@);
    }
    Some(acc)
}

/// Whether `pat` stands in `s` at position `at`.
pub(crate) fn match_at(s: &Vec<char>, pat: &Vec<char>, at: usize) -> (r: bool)
    requires
        at + pat@.len() <= s@.len(),
    ensures
        r == (s@.subrange(at as int, at + pat@.len()) == pat@),
{
    let slen = s.len();
    let mut j: usize = 0;
    while j < pat.len()
        invariant
            slen == s@.len(),
            at + pat@.len() <= s@.len(),
            j <= pat@.len(),
            forall|k: int| 0 <= k < j ==> s@[at + k] == pat@[k],
        decreases pat@.len() - j,
    {
        if s[at + j] != pat[j] {
            proof {
                assert(s@.subrange(at as int, at + pat@.len())[j as int] == s@[at + j]);
            }
            return false;
        }
        j = j + 1;
    }
    proof {
        assert(s@.subrange(at as int, at + pat@.len()) =~= pat@);
    }
    true
}

} // verus!
