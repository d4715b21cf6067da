//! Text: ordering, concatenation and decimal rendering, all stated over
//! sequences of characters.

use vstd::prelude::*;
use vstd::string::*;

verus! {

/// Whether `a` sorts strictly before `b`, character by character.
///
/// A proper prefix sorts before the text it is a prefix of. This is the
/// order `str` itself has.
pub open spec fn text_before(a: Seq<char>, b: Seq<char>) -> bool
    decreases a.len(),
{
    if b.len() == 0 {
        false
    } else if a.len() == 0 {
        true
    } else if a[0] != b[0] {
        (a[0] as u32) < (b[0] as u32)
    } else {
        text_before(a.drop_first(), b.drop_first())
    }
}

pub proof fn text_before_irreflexive(a: Seq<char>)
    ensures
        !text_before(a, a),
    decreases a.len(),
{
    if a.len() > 0 {
        text_before_irreflexive(a.drop_first());
    }
}

pub proof fn text_before_transitive(a: Seq<char>, b: Seq<char>, c: Seq<char>)
    requires
        text_before(a, b),
        text_before(b, c),
    ensures
        text_before(a, c),
    decreases a.len(),
{
    if a.len() > 0 && a[0] == b[0] && b[0] == c[0] {
        text_before_transitive(a.drop_first(), b.drop_first(), c.drop_first());
    }
}

pub proof fn text_before_total(a: Seq<char>, b: Seq<char>)
    ensures
        text_before(a, b) || text_before(b, a) || a == b,
    decreases a.len(),
{
    if a.len() > 0 && b.len() > 0 && a[0] == b[0] {
        text_before_total(a.drop_first(), b.drop_first());
        if a.drop_first() == b.drop_first() {
            assert(a =~= seq![a[0]] + a.drop_first());
            assert(b =~= seq![b[0]] + b.drop_first());
        }
    } else if a.len() == 0 && b.len() == 0 {
        assert(a =~= b);
    } else if a.len() > 0 && b.len() > 0 {
        vstd::utf8::char_u32_cast(a[0], a[0] as u32);
        vstd::utf8::char_u32_cast(b[0], b[0] as u32);
    }
}

/// Whether `a` sorts strictly before `b`.
pub fn str_before(a: &str, b: &str) -> (r: bool)
    ensures
        r == text_before(a@, b@),
{
    let mut xs = a.chars();
    let mut ys = b.chars();
    loop
        invariant
            text_before(a@, b@) == text_before(vstd::std_specs::iter::IteratorSpec::remaining(&xs), vstd::std_specs::iter::IteratorSpec::remaining(&ys)),
            vstd::std_specs::iter::IteratorSpec::decrease(&xs) is Some,
        decreases vstd::std_specs::iter::IteratorSpec::decrease(&xs)->0,
    {
        match (xs.next(), ys.next()) {
            (_, None) => {
                return false;
            },
            (None, Some(_)) => {
                return true;
            },
            (Some(x), Some(y)) => {
                if x != y {
                    return (x as u32) < (y as u32);
                }
            },
        }
    }
}

/// Whether two texts hold the same characters.
pub fn str_same(a: &str, b: &str) -> (r: bool)
    ensures
        r == (a@ == b@),
{
    proof {
        text_before_total(a@, b@);
        text_before_irreflexive(a@);
    }
    !str_before(a, b) && !str_before(b, a)
}

/// The character for one decimal digit.
pub open spec fn digit_char(d: nat) -> char {
    if d == 0 { '0' }
    else if d == 1 { '1' }
    else if d == 2 { '2' }
    else if d == 3 { '3' }
    else if d == 4 { '4' }
    else if d == 5 { '5' }
    else if d == 6 { '6' }
    else if d == 7 { '7' }
    else if d == 8 { '8' }
    else { '9' }
}

/// A natural number in decimal, without leading zeros.
pub open spec fn nat_text(n: nat) -> Seq<char>
    decreases n,
{
    if n < 10 {
        seq![digit_char(n)]
    } else {
        nat_text(n / 10).push(digit_char(n % 10))
    }
}

/// An integer in decimal, with a minus sign in front of a negative one.
pub open spec fn int_text(i: int) -> Seq<char> {
    if i < 0 {
        seq!['-'] + nat_text((-i) as nat)
    } else {
        nat_text(i as nat)
    }
}

/// `String::push` appends one character.
pub assume_specification[ String::push ](s: &mut String, c: char)
    ensures
        final(s)@ == old(s)@.push(c),
;

/// The decimal digit `d`.
fn digit(d: u8) -> (c: char)
    requires
        d < 10,
    ensures
        c == digit_char(d as nat),
{
    match d {
        0 => '0',
        1 => '1',
        2 => '2',
        3 => '3',
        4 => '4',
        5 => '5',
        6 => '6',
        7 => '7',
        8 => '8',
        _ => '9',
    }
}

/// Append `n` in decimal.
pub fn push_u128(out: &mut String, n: u128)
    ensures
        final(out)@ == old(out)@ + nat_text(n as nat),
    decreases n,
{
    if n >= 10 {
        push_u128(out, n / 10);
    }
    let d: u8 = (n % 10) as u8;
    out.push(digit(d));
    assert(out@ =~= old(out)@ + nat_text(n as nat));
}

/// Append `i` in decimal.
pub fn push_i128(out: &mut String, i: i128)
    ensures
        final(out)@ == old(out)@ + int_text(i as int),
{
    if i < 0 {
        out.push('-');
        let magnitude: u128 = if i == i128::MIN {
            170141183460469231731687303715884105728
        } else {
            (-i) as u128
        };
        push_u128(out, magnitude);
        assert(out@ =~= old(out)@ + (seq!['-'] + nat_text((-i) as nat)));
    } else {
        push_u128(out, i as u128);
    }
}

/// Append `i` in decimal.
pub fn push_i64(out: &mut String, i: i64)
    ensures
        final(out)@ == old(out)@ + int_text(i as int),
{
    push_i128(out, i as i128);
}

/// Append `n` in decimal.
pub fn push_u64(out: &mut String, n: u64)
    ensures
        final(out)@ == old(out)@ + int_text(n as int),
{
    push_u128(out, n as u128);
}

/// A character in lower case, if it is an ASCII letter; unchanged otherwise.
pub open spec fn lower_char(c: char) -> char {
    if 'A' <= c && c <= 'Z' {
        ((c as u8) + 32) as u8 as char
    } else {
        c
    }
}

/// A text with its ASCII letters in lower case.
pub open spec fn lower_text(s: Seq<char>) -> Seq<char> {
    s.map_values(|c: char| lower_char(c))
}

/// A character in upper case, if it is an ASCII letter; unchanged otherwise.
pub open spec fn upper_char(c: char) -> char {
    if 'a' <= c && c <= 'z' {
        ((c as u8) - 32) as u8 as char
    } else {
        c
    }
}

/// A text with its ASCII letters in upper case.
pub open spec fn upper_text(s: Seq<char>) -> Seq<char> {
    s.map_values(|c: char| upper_char(c))
}

/// `text` with its ASCII letters in lower case.
pub fn to_lower(text: &str) -> (out: String)
    ensures
        out@ == lower_text(text@),
{
    let mut out = String::new();
    let n: usize = text.unicode_len();
    let mut i: usize = 0;
    while i < n
        invariant
            n == text@.len(),
            i <= n,
            out@ == lower_text(text@.take(i as int)),
        decreases n - i,
    {
        let c = text.get_char(i);
        if 'A' <= c && c <= 'Z' {
            out.push(((c as u8) + 32) as char);
        } else {
            out.push(c);
        }
        assert(text@.take(i + 1) =~= text@.take(i as int).push(c));
        assert(out@ =~= lower_text(text@.take(i + 1)));
        i += 1;
    }
    assert(text@.take(n as int) =~= text@);
    out
}

/// `text` with its ASCII letters in upper case.
pub fn to_upper(text: &str) -> (out: String)
    ensures
        out@ == upper_text(text@),
{
    let mut out = String::new();
    let n: usize = text.unicode_len();
    let mut i: usize = 0;
    while i < n
        invariant
            n == text@.len(),
            i <= n,
            out@ == upper_text(text@.take(i as int)),
        decreases n - i,
    {
        let c = text.get_char(i);
        if 'a' <= c && c <= 'z' {
            out.push(((c as u8) - 32) as char);
        } else {
            out.push(c);
        }
        assert(text@.take(i + 1) =~= text@.take(i as int).push(c));
        assert(out@ =~= upper_text(text@.take(i + 1)));
        i += 1;
    }
    assert(text@.take(n as int) =~= text@);
    out
}

/// Whether a character is white space.
pub open spec fn is_white(c: char) -> bool {
    let u = c as u32;
    ||| 0x9 <= u <= 0xd
    ||| u == 0x20
    ||| u == 0x85
    ||| u == 0xa0
    ||| u == 0x1680
    ||| 0x2000 <= u <= 0x200a
    ||| u == 0x2028
    ||| u == 0x2029
    ||| u == 0x202f
    ||| u == 0x205f
    ||| u == 0x3000
}

/// Whether `c` is white space.
pub fn white(c: char) -> (r: bool)
    ensures
        r == is_white(c),
{
    let u: u32 = c as u32;
    (0x9 <= u && u <= 0xd) || u == 0x20 || u == 0x85 || u == 0xa0 || u == 0x1680 || (0x2000 <= u
        && u <= 0x200a) || u == 0x2028 || u == 0x2029 || u == 0x202f || u == 0x205f || u == 0x3000
}

/// A text without the white space at its start.
pub open spec fn trim_start(s: Seq<char>) -> Seq<char>
    decreases s.len(),
{
    if s.len() > 0 && is_white(s[0]) {
        trim_start(s.drop_first())
    } else {
        s
    }
}

/// A text without the white space at its end.
pub open spec fn trim_end(s: Seq<char>) -> Seq<char>
    decreases s.len(),
{
    if s.len() > 0 && is_white(s.last()) {
        trim_end(s.drop_last())
    } else {
        s
    }
}

/// A text without the white space around it.
pub open spec fn trimmed(s: Seq<char>) -> Seq<char> {
    trim_end(trim_start(s))
}

/// `text` without the white space around it.
pub fn trim(text: &str) -> (r: &str)
    ensures
        r@ == trimmed(text@),
{
    let n: usize = text.unicode_len();
    let mut from: usize = 0;
    assert(text@.subrange(0, n as int) =~= text@);
    while from < n && white(text.get_char(from))
        invariant
            n == text@.len(),
            from <= n,
            trim_start(text@) == trim_start(text@.subrange(from as int, n as int)),
        decreases n - from,
    {
        assert(text@.subrange(from as int, n as int).drop_first() =~= text@.subrange(
            from + 1,
            n as int,
        ));
        from += 1;
    }
    assert(trim_start(text@) == text@.subrange(from as int, n as int));
    let mut to: usize = n;
    while to > from && white(text.get_char(to - 1))
        invariant
            n == text@.len(),
            from <= to <= n,
            trimmed(text@) == trim_end(text@.subrange(from as int, to as int)),
        decreases to,
    {
        assert(text@.subrange(from as int, to as int).drop_last() =~= text@.subrange(
            from as int,
            to - 1,
        ));
        to -= 1;
    }
    text.substring_char(from, to)
}

/// What `{:?}` renders a text as: quoted, with special characters escaped.
pub uninterp spec fn debug_text(s: Seq<char>) -> Seq<char>;

/// `format!("{:?}", text)`: the quoted, escaped rendering std gives a `str`.
#[verifier::external_body]
pub(crate) fn debug_of(text: &str) -> (r: String)
    ensures
        r@ == debug_text(text@),
{
    format!("{:?}", text)
}

/// A trimmed text neither starts nor ends with white space, and one that does
/// neither is left as it is.
pub proof fn trimming_takes_the_white_off(s: Seq<char>)
    ensures
        trimmed(s).len() > 0 ==> !is_white(trimmed(s)[0]) && !is_white(trimmed(s).last()),
        s.len() > 0 && !is_white(s[0]) && !is_white(s.last()) ==> trimmed(s) == s,
        trimmed(s).len() <= s.len(),
{
    starts_without_white(s);
    ends_without_white(trim_start(s));
}

proof fn starts_without_white(s: Seq<char>)
    ensures
        trim_start(s).len() > 0 ==> !is_white(trim_start(s)[0]),
        trim_start(s).len() <= s.len(),
    decreases s.len(),
{
    if s.len() > 0 && is_white(s[0]) {
        starts_without_white(s.drop_first());
    }
}

proof fn ends_without_white(s: Seq<char>)
    ensures
        trim_end(s).len() > 0 ==> !is_white(trim_end(s).last()) && trim_end(s)[0] == s[0],
        trim_end(s).len() <= s.len(),
    decreases s.len(),
{
    if s.len() > 0 && is_white(s.last()) {
        ends_without_white(s.drop_last());
    }
}

/// Changing the case of a text changes its ASCII letters alone, and changing
/// it again changes nothing.
pub proof fn changing_case_again_changes_nothing(s: Seq<char>)
    ensures
        lower_text(s).len() == s.len(),
        upper_text(s).len() == s.len(),
        forall|i: int|
            0 <= i < s.len() ==> {
                let c = #[trigger] s[i];
                &&& 'A' <= c <= 'Z' ==> lower_text(s)[i] as int == c as int + 32
                &&& !('A' <= c <= 'Z') ==> lower_text(s)[i] == c
                &&& 'a' <= c <= 'z' ==> upper_text(s)[i] as int == c as int - 32
                &&& !('a' <= c <= 'z') ==> upper_text(s)[i] == c
            },
        lower_text(lower_text(s)) == lower_text(s),
        upper_text(upper_text(s)) == upper_text(s),
{
    assert(lower_text(lower_text(s)) =~= lower_text(s));
    assert(upper_text(upper_text(s)) =~= upper_text(s));
}

/// What a line of decimal digits counts.
pub open spec fn digits_count(s: Seq<char>) -> int
    decreases s.len(),
{
    if s.len() == 0 {
        0
    } else {
        10 * digits_count(s.drop_last()) + (s.last() as int - '0' as int)
    }
}

/// A natural number is written in digits that count it, without a leading
/// zero.
pub proof fn numbers_are_written_in_digits(n: nat)
    ensures
        digits_count(nat_text(n)) == n,
        nat_text(n).len() > 0,
        forall|i: int| 0 <= i < nat_text(n).len() ==> '0' <= #[trigger] nat_text(n)[i] <= '9',
        n > 0 ==> nat_text(n)[0] != '0',
    decreases n,
{
    let text = nat_text(n);
    if n < 10 {
        assert(text.drop_last() =~= Seq::<char>::empty());
        assert(digits_count(Seq::<char>::empty()) == 0);
    } else {
        numbers_are_written_in_digits(n / 10);
        assert(text.drop_last() =~= nat_text(n / 10));
        assert(text[0] == nat_text(n / 10)[0]);
    }
}

/// Two integers are written alike only where they are the same, and a minus
/// sign is in front of the negative ones alone.
pub proof fn integers_are_written_apart(a: int, b: int)
    ensures
        int_text(a) == int_text(b) ==> a == b,
        int_text(a).len() > 0,
        int_text(a)[0] == '-' <==> a < 0,
        a < 0 ==> int_text(a).drop_first() == int_text(-a),
{
    let (m, n) = (if a < 0 { -a } else { a }, if b < 0 { -b } else { b });
    numbers_are_written_in_digits(m as nat);
    numbers_are_written_in_digits(n as nat);
    assert('0' <= nat_text(m as nat)[0]);
    assert('0' <= nat_text(n as nat)[0]);
    if a < 0 {
        assert(int_text(a).drop_first() =~= nat_text(m as nat));
    }
    if b < 0 {
        assert(int_text(b).drop_first() =~= nat_text(n as nat));
    }
}

} // verus!
