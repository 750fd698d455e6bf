//! Character-level helpers over `Seq<char>`: digit runs and their decimal
//! value, ASCII lower-casing, Unicode white space and lexicographic order.

use vstd::prelude::*;

verus! {

/// `c` is one of `0`..=`9` (what `char::is_ascii_digit` accepts).
pub open spec fn is_digit(c: char) -> bool {
    '0' <= c && c <= '9'
}

/// The numeric value of an ASCII digit.
pub open spec fn digit_value(c: char) -> nat {
    ((c as int) - ('0' as int)) as nat
}

/// The decimal value of a run of ASCII digits, most significant first.
pub open spec fn decimal_value(s: Seq<char>) -> nat
    decreases s.len(),
{
    if s.len() == 0 {
        0
    } else {
        decimal_value(s.drop_last()) * 10 + digit_value(s.last())
    }
}

/// A longer run of digits is worth at least as much as its prefix.
pub proof fn lemma_decimal_value_grows(s: Seq<char>, i: int)
    requires
        0 <= i <= s.len(),
    ensures
        decimal_value(s.take(i)) <= decimal_value(s),
    decreases s.len() - i,
{
    if i < s.len() {
        lemma_decimal_value_grows(s, i + 1);
        assert(s.take(i + 1).drop_last() =~= s.take(i));
    } else {
        assert(s.take(i) =~= s);
    }
}

/// ASCII upper-case letters map to lower-case ones; every other character is
/// left as it is (what `str::to_ascii_lowercase` does).
pub open spec fn ascii_lower_char(c: char) -> char {
    if 'A' <= c && c <= 'Z' {
        ((c as int) + 32) as char
    } else {
        c
    }
}

pub open spec fn ascii_lower(s: Seq<char>) -> Seq<char> {
    s.map_values(|c: char| ascii_lower_char(c))
}

pub open spec fn all_ascii(s: Seq<char>) -> bool {
    forall|i: int| 0 <= i < s.len() ==> (#[trigger] s[i] as int) < 128
}

/// What `str::to_lowercase` returns for a string: the Unicode lower-case
/// mapping of every character, with the context rule for final sigma.
pub uninterp spec fn unicode_lower(s: Seq<char>) -> Seq<char>;

/// Calls `str::to_lowercase`. Its result is named `unicode_lower` of the
/// input; on ASCII input it is the ASCII lower-casing, since the Unicode
/// lower-case mapping of `A`..=`Z` is `a`..=`z` and leaves the other ASCII
/// characters alone. Nothing else of the Unicode tables is stated.
#[verifier::external_body]
pub(crate) fn to_lowercase(s: &str) -> (r: String)
    ensures
        r@ == unicode_lower(s@),
        all_ascii(s@) ==> r@ == ascii_lower(s@),
{
    s.to_lowercase()
}

/// Calls `String::push`: appends one character.
#[verifier::external_body]
pub(crate) fn push_char(s: &mut String, c: char)
    ensures
        final(s)@ == old(s)@.push(c),
{
    s.push(c)
}

pub fn lower_ascii_char(c: char) -> (r: char)
    ensures
        r == ascii_lower_char(c),
{
    if 'A' <= c && c <= 'Z' {
        let code: u8 = c as u8 + 32;
        code as char
    } else {
        c
    }
}

/// The Unicode `White_Space` property, which `str::trim` strips.
pub open spec fn is_white_space(c: char) -> bool {
    ||| '\u{9}' <= c && c <= '\u{d}'
    ||| c == ' '
    ||| c == '\u{85}'
    ||| c == '\u{a0}'
    ||| c == '\u{1680}'
    ||| '\u{2000}' <= c && c <= '\u{200a}'
    ||| c == '\u{2028}'
    ||| c == '\u{2029}'
    ||| c == '\u{202f}'
    ||| c == '\u{205f}'
    ||| c == '\u{3000}'
}

pub fn white_space(c: char) -> (r: bool)
    ensures
        r == is_white_space(c),
{
    ('\u{9}' <= c && c <= '\u{d}') || c == ' ' || c == '\u{85}' || c == '\u{a0}' || c
        == '\u{1680}' || ('\u{2000}' <= c && c <= '\u{200a}') || c == '\u{2028}' || c
        == '\u{2029}' || c == '\u{202f}' || c == '\u{205f}' || c == '\u{3000}'
}

/// `s` without its leading white space.
pub open spec fn trim_start(s: Seq<char>) -> Seq<char>
    decreases s.len(),
{
    if s.len() > 0 && is_white_space(s[0]) {
        trim_start(s.drop_first())
    } else {
        s
    }
}

/// `s` without its trailing white space.
pub open spec fn trim_end(s: Seq<char>) -> Seq<char>
    decreases s.len(),
{
    if s.len() > 0 && is_white_space(s.last()) {
        trim_end(s.drop_last())
    } else {
        s
    }
}

/// `s` without leading and trailing white space (`str::trim`).
pub open spec fn trimmed(s: Seq<char>) -> Seq<char> {
    trim_end(trim_start(s))
}

/// `s` without leading and trailing white space.
pub fn trim(s: &str) -> (r: String)
    ensures
        r@ == trimmed(s@),
{
    let n = s.unicode_len();
    let mut i: usize = 0;
    assert(s@.skip(0) =~= s@);
    while i < n && white_space(s.get_char(i))
        invariant
            n == s@.len(),
            i <= n,
            trim_start(s@) == trim_start(s@.skip(i as int)),
        decreases n - i,
    {
        assert(s@.skip(i as int).drop_first() =~= s@.skip(i + 1));
        i = i + 1;
    }
    let ghost t = s@.skip(i as int);
    assert(trim_start(t) == t);
    let mut j: usize = n;
    assert(t.take(n - i) =~= t);
    while j > i && white_space(s.get_char(j - 1))
        invariant
            n == s@.len(),
            i <= j <= n,
            t == s@.skip(i as int),
            trim_end(t) == trim_end(t.take(j - i)),
        decreases j,
    {
        assert(t.take(j - i).drop_last() =~= t.take(j - i - 1));
        j = j - 1;
    }
    assert(t.take(j - i) =~= s@.subrange(i as int, j as int));
    s.substring_char(i, j).to_owned()
}

/// The character of a decimal digit.
pub open spec fn digit_char(d: nat) -> char {
    (('0' as int) + d) as char
}

/// The decimal digits of `n`, without leading zeros (what `{}` prints).
pub open spec fn decimal(n: nat) -> Seq<char>
    decreases n,
{
    if n < 10 {
        seq![digit_char(n)]
    } else {
        decimal(n / 10).push(digit_char(n % 10))
    }
}

/// `s` with zeros in front up to `width` characters (what `{:0width}` does
/// to a number).
pub open spec fn zero_padded(s: Seq<char>, width: nat) -> Seq<char> {
    if s.len() < width {
        Seq::new((width - s.len()) as nat, |i: int| '0') + s
    } else {
        s
    }
}

/// Appends the decimal digits of `n`, padded with zeros to `width`.
pub fn push_padded_decimal(s: &mut String, n: usize, width: usize)
    ensures
        final(s)@ == old(s)@ + zero_padded(decimal(n as nat), width as nat),
{
    // The digits, least significant first.
    let mut digits: Vec<char> = Vec::new();
    let mut m: usize = n;
    let ghost mut rest: nat = n as nat;
    assert(decimal(n as nat) =~= decimal(n as nat) + digits@.reverse());
    loop
        invariant_except_break
            m == rest,
            decimal(n as nat) == decimal(rest) + digits@.reverse(),
        ensures
            decimal(n as nat) == digits@.reverse(),
        decreases m,
    {
        let d: u8 = (m % 10) as u8;
        let c = (48u8 + d) as char;
        let ghost before = digits@;
        digits.push(c);
        proof {
            assert(c == digit_char((rest % 10) as nat));
            assert(digits@.reverse() =~= seq![c] + before.reverse());
            if rest < 10 {
                assert(decimal(rest) =~= seq![c]);
            } else {
                assert(decimal(rest) == decimal(rest / 10).push(c));
                assert(decimal(rest / 10).push(c) + before.reverse() =~= decimal(rest / 10) + (seq![c]
                    + before.reverse()));
            }
        }
        if m < 10 {
            proof {
                assert(decimal(rest) =~= seq![c]);
                assert(decimal(n as nat) =~= digits@.reverse());
            }
            break;
        }
        m = m / 10;
        proof {
            rest = rest / 10;
        }
    }
    let ghost start = s@;
    let ghost dec = decimal(n as nat);
    let len = digits.len();
    let mut pad: usize = 0;
    let ghost zeros = if dec.len() < width { Seq::new((width - dec.len()) as nat, |i: int| '0') } else { Seq::<char>::empty() };
    while len < width && pad < width - len
        invariant
            len == digits@.len(),
            dec == digits@.reverse(),
            dec == decimal(n as nat),
            zeros == if dec.len() < width { Seq::new((width - dec.len()) as nat, |i: int| '0') } else { Seq::<char>::empty() },
            len < width ==> pad <= width - len,
            len >= width ==> pad == 0,
            s@ == start + zeros.take(pad as int),
        decreases width - pad,
    {
        push_char(s, '0');
        assert(zeros.take(pad + 1) =~= zeros.take(pad as int).push('0'));
        pad = pad + 1;
    }
    assert(zeros.take(pad as int) =~= zeros);
    let mut k: usize = len;
    while k > 0
        invariant
            k <= len,
            len == digits@.len(),
            dec == digits@.reverse(),
            s@ == start + zeros + dec.take(len - k),
        decreases k,
    {
        push_char(s, digits[k - 1]);
        assert(dec.take(len - k + 1) =~= dec.take(len - k).push(digits@[k - 1]));
        k = k - 1;
    }
    assert(dec.take(len as int) =~= dec);
    assert(s@ =~= start + zero_padded(dec, width as nat));
}

} // verus!
