use vstd::prelude::*;

use vstd::string::{StrSliceExecFns, StringExecFns};

verus! {

/// Whether `needle` occurs somewhere in `hay` as a contiguous run of
/// characters.
pub open spec fn contains_seq(hay: Seq<char>, needle: Seq<char>) -> bool {
    exists|i: int|
        0 <= i && i + needle.len() <= hay.len() && #[trigger] hay.subrange(i, i + needle.len())
            == needle
}

/// Character-by-character equality of two string slices.
pub fn str_eq(a: &str, b: &str) -> (r: bool)
    ensures
        r == (a@ == b@),
{
    let alen = a.unicode_len();
    let blen = b.unicode_len();
    if alen != blen {
        return false;
    }
    let mut i: usize = 0;
    while i < alen
        invariant
            i <= alen,
            alen == a@.len(),
            alen == b@.len(),
            forall|j: int| 0 <= j < i ==> a@[j] == b@[j],
        decreases alen - i,
    {
        if a.get_char(i) != b.get_char(i) {
            return false;
        }
        i = i + 1;
    }
    proof {
        assert(a@ =~= b@);
    }
    true
}

/// Whether `hay` starting at position `i` spells out `needle`.
fn match_at(hay: &str, needle: &str, i: usize, hlen: usize, nlen: usize) -> (r: bool)
    requires
        hlen == hay@.len(),
        nlen == needle@.len(),
        i + nlen <= hlen,
    ensures
        r == (hay@.subrange(i as int, i + nlen) == needle@),
{
    let mut j: usize = 0;
    while j < nlen
        invariant
            j <= nlen,
            hlen == hay@.len(),
            nlen == needle@.len(),
            i + nlen <= hlen,
            forall|k: int| 0 <= k < j ==> hay@[i + k] == needle@[k],
        decreases nlen - j,
    {
        if hay.get_char(i + j) != needle.get_char(j) {
            proof {
                assert(hay@.subrange(i as int, i + nlen)[j as int] == hay@[i + j]);
            }
            return false;
        }
        j = j + 1;
    }
    proof {
        assert(hay@.subrange(i as int, i + nlen) =~= needle@);
    }
    true
}

/// Literal, case-sensitive substring search.
pub fn str_contains(hay: &str, needle: &str) -> (r: bool)
    ensures
        r == contains_seq(hay@, needle@),
{
    let hlen = hay.unicode_len();
    let nlen = needle.unicode_len();
    if nlen > hlen {
        return false;
    }
    let mut i: usize = 0;
    while i <= hlen - nlen
        invariant
            nlen <= hlen,
            i <= hlen - nlen + 1,
            hlen == hay@.len(),
            nlen == needle@.len(),
            forall|j: int| 0 <= j < i ==> #[trigger] hay@.subrange(j, j + nlen as int) != needle@,
        decreases hlen - i,
    {
        if match_at(hay, needle, i, hlen, nlen) {
            proof {
                assert(0 <= i as int && i as int + needle@.len() <= hay@.len() && hay@.subrange(
                    i as int,
                    i as int + needle@.len(),
                ) == needle@);
            }
            return true;
        }
        proof {
            if nlen == 0 {
                assert(hay@.subrange(i as int, i as int + nlen as int) =~= needle@);
            }
        }
        i = i + 1;
    }
    false
}

/// The character for a single decimal digit.
pub open spec fn digit_char(d: nat) -> char {
    if d == 0 {
        '0'
    } else if d == 1 {
        '1'
    } else if d == 2 {
        '2'
    } else if d == 3 {
        '3'
    } else if d == 4 {
        '4'
    } else if d == 5 {
        '5'
    } else if d == 6 {
        '6'
    } else if d == 7 {
        '7'
    } else if d == 8 {
        '8'
    } else {
        '9'
    }
}

/// The decimal digits of `n`, most significant first.
pub open spec fn dec_str(n: nat) -> Seq<char>
    decreases n,
{
    if n < 10 {
        seq![digit_char(n)]
    } else {
        dec_str(n / 10).push(digit_char(n % 10))
    }
}

/// Powers of ten.
pub open spec fn pow10(k: nat) -> nat
    decreases k,
{
    if k == 0 {
        1
    } else {
        10 * pow10((k - 1) as nat)
    }
}

/// A number below `pow10(k)` prints in at most `k` digits.
proof fn lemma_dec_str_len_bound(n: nat, k: nat)
    requires
        k >= 1,
        n < pow10(k),
    ensures
        1 <= dec_str(n).len() <= k,
    decreases k,
{
    if n < 10 {
    } else {
        assert(pow10(k) == 10 * pow10((k - 1) as nat));
        if k == 1 {
            assert(pow10(0nat) == 1);
            assert(false);
        }
        assert(n / 10 < pow10((k - 1) as nat)) by (nonlinear_arith)
            requires
                n < 10 * pow10((k - 1) as nat),
        ;
        lemma_dec_str_len_bound(n / 10, (k - 1) as nat);
    }
}

/// Any id fits in five digits.
pub proof fn lemma_dec_str_len_u16(n: nat)
    requires
        n < 65536,
    ensures
        1 <= dec_str(n).len() <= 5,
{
    assert(pow10(0nat) == 1);
    assert(pow10(1nat) == 10);
    assert(pow10(2nat) == 100);
    assert(pow10(3nat) == 1000);
    assert(pow10(4nat) == 10000);
    assert(pow10(5nat) == 100000);
    lemma_dec_str_len_bound(n, 5);
}

/// The single-character string for a decimal digit.
fn digit_str(d: u16) -> (r: &'static str)
    requires
        d < 10,
    ensures
        r@ == seq![digit_char(d as nat)],
{
    let s: &'static str = if d == 0 {
        "0"
    } else if d == 1 {
        "1"
    } else if d == 2 {
        "2"
    } else if d == 3 {
        "3"
    } else if d == 4 {
        "4"
    } else if d == 5 {
        "5"
    } else if d == 6 {
        "6"
    } else if d == 7 {
        "7"
    } else if d == 8 {
        "8"
    } else {
        "9"
    };
    proof {
        reveal_strlit("0");
        reveal_strlit("1");
        reveal_strlit("2");
        reveal_strlit("3");
        reveal_strlit("4");
        reveal_strlit("5");
        reveal_strlit("6");
        reveal_strlit("7");
        reveal_strlit("8");
        reveal_strlit("9");
        assert(s@ =~= seq![digit_char(d as nat)]);
    }
    s
}

/// Renders an id in decimal.
pub fn u16_to_string(n: u16) -> (r: String)
    ensures
        r@ == dec_str(n as nat),
    decreases n,
{
    if n < 10 {
        String::from_str(digit_str(n))
    } else {
        let mut s = u16_to_string(n / 10);
        s.append(digit_str(n % 10));
        proof {
            assert(s@ =~= dec_str(n as nat));
        }
        s
    }
}

/// A run of `k` spaces.
pub open spec fn spaces(k: nat) -> Seq<char> {
    Seq::new(k, |i: int| ' ')
}

/// The decimal digits of `n`, left-padded with spaces to width five, as a
/// task id appears inside a summary line.
pub open spec fn padded5(n: nat) -> Seq<char> {
    if dec_str(n).len() >= 5 {
        dec_str(n)
    } else {
        spaces((5 - dec_str(n).len()) as nat) + dec_str(n)
    }
}

/// Renders an id right-aligned in a field of width five.
pub fn u16_padded5(n: u16) -> (r: String)
    ensures
        r@ == padded5(n as nat),
{
    let digits = u16_to_string(n);
    let dlen = digits.as_str().unicode_len();
    proof {
        lemma_dec_str_len_u16(n as nat);
    }
    let mut s = String::new();
    let mut k: usize = dlen;
    while k < 5
        invariant
            dlen <= k <= 5,
            dlen == dec_str(n as nat).len(),
            s@ =~= spaces((k - dlen) as nat),
        decreases 5 - k,
    {
        s.append(" ");
        k = k + 1;
        proof {
            reveal_strlit(" ");
            assert(s@ =~= spaces((k - dlen) as nat));
        }
    }
    s.append(digits.as_str());
    proof {
        assert(s@ =~= padded5(n as nat));
    }
    s
}

/// Whether a run of characters is one or more decimal digits.
pub open spec fn is_dec_digits(s: Seq<char>) -> bool {
    s.len() >= 1 && forall|i: int| 0 <= i < s.len() ==> 48 <= #[trigger] s[i] as int <= 57
}

/// The number a run of decimal digits denotes.
pub open spec fn dec_value(s: Seq<char>) -> int
    decreases s.len(),
{
    if s.len() == 0 {
        0
    } else {
        dec_value(s.drop_last()) * 10 + (s.last() as int - 48)
    }
}

/// A piece of text with its optional leading plus sign stripped.
pub open spec fn digits_of(s: Seq<char>) -> Seq<char> {
    if s.len() >= 1 && s[0] == '+' {
        s.drop_first()
    } else {
        s
    }
}

/// The id a piece of text denotes: an optional plus sign, then decimal
/// digits whose value fits in an id; anything else denotes none.
pub open spec fn u16_of_text(s: Seq<char>) -> Option<u16> {
    if is_dec_digits(digits_of(s)) && dec_value(digits_of(s)) <= 65535 {
        Some(dec_value(digits_of(s)) as u16)
    } else {
        None
    }
}

/// Reads an id from text.
pub fn parse_u16(s: &str) -> (r: Option<u16>)
    ensures
        r == u16_of_text(s@),
{
    let n = s.unicode_len();
    let start: usize = if n >= 1 && s.get_char(0) == '+' {
        1
    } else {
        0
    };
    proof {
        assert(digits_of(s@) =~= s@.subrange(start as int, n as int));
    }
    if n == start {
        return None;
    }
    let mut value: u32 = 0;
    let mut i: usize = start;
    while i < n
        invariant
            start <= i <= n,
            n == s@.len(),
            start == 0 || start == 1,
            digits_of(s@) =~= s@.subrange(start as int, n as int),
            forall|k: int| 0 <= k < i - start ==> 48 <= #[trigger] digits_of(s@)[k] as int <= 57,
            value <= 65536,
            dec_value(digits_of(s@).subrange(0, i - start)) <= 65535 ==> value == dec_value(
                digits_of(s@).subrange(0, i - start),
            ),
            dec_value(digits_of(s@).subrange(0, i - start)) > 65535 ==> value == 65536,
            dec_value(digits_of(s@).subrange(0, i - start)) >= 0,
        decreases n - i,
    {
        let ch = s.get_char(i);
        let c = ch as u32;
        if c < 48 || c > 57 {
            proof {
                assert(digits_of(s@)[i - start] == s@[i as int]);
                assert(s@[i as int] == ch);
                assert(ch as int == c as int);
                assert(!(48 <= digits_of(s@)[i - start] as int <= 57));
                assert(!is_dec_digits(digits_of(s@)));
                assert(u16_of_text(s@) is None);
            }
            return None;
        }
        let d = c - 48;
        proof {
            let k = i - start;
            let prefix = digits_of(s@).subrange(0, k);
            let prefix2 = digits_of(s@).subrange(0, k + 1);
            assert(prefix2.drop_last() =~= prefix);
            assert(prefix2.last() == digits_of(s@)[k]);
            assert(digits_of(s@)[k] == s@[i as int]);
            assert(dec_value(prefix2) == dec_value(prefix) * 10 + (digits_of(s@)[k] as int - 48));
        }
        if value > 65535 {
            value = 65536;
        } else {
            value = value * 10 + d;
            if value > 65535 {
                value = 65536;
            }
        }
        i = i + 1;
    }
    proof {
        assert(digits_of(s@).subrange(0, n - start) =~= digits_of(s@));
        assert(is_dec_digits(digits_of(s@)));
    }
    if value > 65535 {
        None
    } else {
        Some(value as u16)
    }
}

} // verus!
