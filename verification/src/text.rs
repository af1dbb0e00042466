//! Texts built piece by piece, and numbers in decimal and hexadecimal.

use vstd::prelude::*;
use vstd::string::*;
#[allow(unused_imports)]
use vstd::utf8::*;
use crate::bytes::same_bytes;

verus! {

/// The decimal digit for `d`.
pub open spec fn digit(d: nat) -> char {
    (48 + d) as char
}

/// `n` in decimal, without leading zeros.
pub open spec fn decimal(n: nat) -> Seq<char>
    decreases n,
{
    if n < 10 {
        seq![digit(n)]
    } else {
        decimal(n / 10).push(digit(n % 10))
    }
}

/// `n` in decimal, with a minus sign where it is negative.
pub open spec fn signed_decimal(n: int) -> Seq<char> {
    if n < 0 {
        "-"@ + decimal((-n) as nat)
    } else {
        decimal(n as nat)
    }
}

/// The lower-case hexadecimal digit for `d`.
pub open spec fn hex_digit(d: nat) -> char {
    if d < 10 {
        (48 + d) as char
    } else {
        (87 + d) as char
    }
}

/// The last `width` hexadecimal digits of `n`.
pub open spec fn hex_padded(n: nat, width: nat) -> Seq<char>
    decreases width,
{
    if width == 0 {
        Seq::empty()
    } else {
        hex_padded(n / 16, (width - 1) as nat).push(hex_digit(n % 16))
    }
}

fn push_digit(out: &mut String, d: u64)
    requires
        d < 10,
    ensures
        final(out)@ == old(out)@.push(digit(d as nat)),
{
    proof {
        reveal_strlit("0");
        reveal_strlit("1");
        reveal_strlit("2");
        reveal_strlit("3");
        reveal_strlit("4");
        reveal_strlit("5");
        reveal_strlit("6");
        reveal_strlit("7");
        reveal_strlit("8");
        reveal_strlit("9");
    }
    let text: &str = match d {
        0 => "0",
        1 => "1",
        2 => "2",
        3 => "3",
        4 => "4",
        5 => "5",
        6 => "6",
        7 => "7",
        8 => "8",
        _ => "9",
    };
    out.append(text);
    assert(out@ =~= old(out)@.push(digit(d as nat)));
}

/// Appends `n` in decimal.
pub fn push_decimal(out: &mut String, n: u64)
    ensures
        final(out)@ == old(out)@ + decimal(n as nat),
    decreases n,
{
    if n >= 10 {
        push_decimal(out, n / 10);
    }
    let ghost before = out@;
    push_digit(out, n % 10);
    assert(out@ =~= old(out)@ + decimal(n as nat));
}

/// Appends `n` in decimal, with a minus sign where it is negative.
pub fn push_signed(out: &mut String, n: i64)
    ensures
        final(out)@ == old(out)@ + signed_decimal(n as int),
{
    if n < 0 {
        out.append("-");
        let magnitude: u64 = (-(n as i128)) as u64;
        push_decimal(out, magnitude);
        assert(out@ =~= old(out)@ + signed_decimal(n as int));
    } else {
        push_decimal(out, n as u64);
    }
}

fn push_hex_digit(out: &mut String, d: u64)
    requires
        d < 16,
    ensures
        final(out)@ == old(out)@.push(hex_digit(d as nat)),
{
    if d < 10 {
        push_digit(out, d);
        return;
    }
    proof {
        reveal_strlit("a");
        reveal_strlit("b");
        reveal_strlit("c");
        reveal_strlit("d");
        reveal_strlit("e");
        reveal_strlit("f");
    }
    let text: &str = match d {
        10 => "a",
        11 => "b",
        12 => "c",
        13 => "d",
        14 => "e",
        _ => "f",
    };
    out.append(text);
    assert(out@ =~= old(out)@.push(hex_digit(d as nat)));
}

/// Appends the last `width` hexadecimal digits of `n`.
pub fn push_hex(out: &mut String, n: u64, width: u8)
    ensures
        final(out)@ == old(out)@ + hex_padded(n as nat, width as nat),
    decreases width,
{
    if width > 0 {
        push_hex(out, n / 16, width - 1);
        push_hex_digit(out, n % 16);
    }
    assert(out@ =~= old(out)@ + hex_padded(n as nat, width as nat));
}

/// The upper-case hexadecimal digit for `d`.
pub open spec fn upper_hex_digit(d: nat) -> char {
    if d < 10 {
        (48 + d) as char
    } else {
        (55 + d) as char
    }
}

/// The last `width` hexadecimal digits of `n`, upper-case.
pub open spec fn upper_hex_padded(n: nat, width: nat) -> Seq<char>
    decreases width,
{
    if width == 0 {
        Seq::empty()
    } else {
        upper_hex_padded(n / 16, (width - 1) as nat).push(upper_hex_digit(n % 16))
    }
}

fn push_upper_hex_digit(out: &mut String, d: u64)
    requires
        d < 16,
    ensures
        final(out)@ == old(out)@.push(upper_hex_digit(d as nat)),
{
    if d < 10 {
        push_digit(out, d);
        return;
    }
    proof {
        reveal_strlit("A");
        reveal_strlit("B");
        reveal_strlit("C");
        reveal_strlit("D");
        reveal_strlit("E");
        reveal_strlit("F");
    }
    let text: &str = match d {
        10 => "A",
        11 => "B",
        12 => "C",
        13 => "D",
        14 => "E",
        _ => "F",
    };
    out.append(text);
    assert(out@ =~= old(out)@.push(upper_hex_digit(d as nat)));
}

/// Appends the last `width` hexadecimal digits of `n`, upper-case.
pub fn push_upper_hex(out: &mut String, n: u64, width: u8)
    ensures
        final(out)@ == old(out)@ + upper_hex_padded(n as nat, width as nat),
    decreases width,
{
    if width > 0 {
        push_upper_hex(out, n / 16, width - 1);
        push_upper_hex_digit(out, n % 16);
    }
    assert(out@ =~= old(out)@ + upper_hex_padded(n as nat, width as nat));
}

/// The upper-case hexadecimal digits of `n`, no more than it needs.
pub open spec fn upper_hex(n: nat) -> Seq<char> {
    upper_hex_padded(n, hex_width(n))
}

/// Appends the upper-case hexadecimal digits of `n`.
pub fn push_upper(out: &mut String, n: u64)
    ensures
        final(out)@ == old(out)@ + upper_hex(n as nat),
{
    let width: u8 = width_of_hex(n);
    push_upper_hex(out, n, width);
}

/// Four upper-case hexadecimal digits, more where `n` needs more.
pub open spec fn upper_hex4(n: nat) -> Seq<char> {
    upper_hex_padded(
        n,
        if hex_width(n) < 4 {
            4
        } else {
            hex_width(n)
        },
    )
}

/// Appends four upper-case hexadecimal digits, more where `n` needs more.
pub fn push_upper_hex4(out: &mut String, n: u64)
    ensures
        final(out)@ == old(out)@ + upper_hex4(n as nat),
{
    let width: u8 = width_of_hex(n);
    push_upper_hex(
        out,
        n,
        if width < 4 {
            4
        } else {
            width
        },
    );
}

/// How many hexadecimal digits `n` needs, at least one.
pub open spec fn hex_width(n: nat) -> nat
    decreases n,
{
    if n < 16 {
        1
    } else {
        1 + hex_width(n / 16)
    }
}

fn width_of_hex(n: u64) -> (r: u8)
    ensures
        r == hex_width(n as nat),
        r <= 16,
{
    proof {
        reveal_with_fuel(hex_width, 17);
    }
    let mut width: u8 = 1;
    let mut rest: u64 = n;
    while rest >= 16 && width < 16
        invariant
            1 <= width <= 16,
            width - 1 + hex_width(rest as nat) == hex_width(n as nat),
            width == 1 ==> rest == n,
            width > 1 ==> rest < 0x1000_0000_0000_0000,
            width > 2 ==> rest < 0x100_0000_0000_0000,
            width > 3 ==> rest < 0x10_0000_0000_0000,
            width > 4 ==> rest < 0x1_0000_0000_0000,
            width > 5 ==> rest < 0x1000_0000_0000,
            width > 6 ==> rest < 0x100_0000_0000,
            width > 7 ==> rest < 0x10_0000_0000,
            width > 8 ==> rest < 0x1_0000_0000,
            width > 9 ==> rest < 0x1000_0000,
            width > 10 ==> rest < 0x100_0000,
            width > 11 ==> rest < 0x10_0000,
            width > 12 ==> rest < 0x1_0000,
            width > 13 ==> rest < 0x1000,
            width > 14 ==> rest < 0x100,
            width > 15 ==> rest < 0x10,
        decreases rest,
    {
        rest = rest / 16;
        width = width + 1;
    }
    width
}

/// `0x` and eight hexadecimal digits, more where `n` needs more.
pub open spec fn hex8(n: nat) -> Seq<char> {
    "0x"@ + hex_padded(
        n,
        if hex_width(n) < 8 {
            8
        } else {
            hex_width(n)
        },
    )
}

/// Appends `0x` and eight hexadecimal digits, more where `n` needs more.
pub fn push_hex8(out: &mut String, n: u64)
    ensures
        final(out)@ == old(out)@ + hex8(n as nat),
{
    out.append("0x");
    let width: u8 = width_of_hex(n);
    push_hex(
        out,
        n,
        if width < 8 {
            8
        } else {
            width
        },
    );
    assert(out@ =~= old(out)@ + hex8(n as nat));
}

/// Whether two texts are equal.
pub fn same_text(a: &str, b: &str) -> (r: bool)
    ensures
        r == (a@ == b@),
{
    proof {
        encode_utf8_decode_utf8(a@);
        encode_utf8_decode_utf8(b@);
    }
    same_bytes(a.as_bytes(), b.as_bytes())
}

/// Whether a text holds a character.
pub fn has_char(s: &str, wanted: char) -> (r: bool)
    ensures
        r == s@.contains(wanted),
{
    for c in it: s.chars()
        invariant
            forall|i: int| 0 <= i < it.index() ==> s@[i] != wanted,
            it.seq() == s@,
    {
        if c == wanted {
            assert(s@[it.index() as int] == wanted);
            return true;
        }
    }
    false
}


/// The characters of a text.
pub fn chars_of(s: &str) -> (r: Vec<char>)
    ensures
        r@ == s@,
{
    let mut out: Vec<char> = Vec::new();
    for c in it: s.chars()
        invariant
            it.seq() == s@,
            out@ == s@.take(it.index() as int),
    {
        out.push(c);
        assert(out@ =~= s@.take(it.index() + 1));
    }
    assert(s@.take(s@.len() as int) =~= s@);
    out
}

/// Whether a text begins with another.
pub open spec fn begins_with(s: Seq<char>, prefix: Seq<char>) -> bool {
    prefix.len() <= s.len() && s.take(prefix.len() as int) == prefix
}

/// Whether a text begins with another.
pub fn starts_with(s: &str, prefix: &str) -> (r: bool)
    ensures
        r == begins_with(s@, prefix@),
{
    let n: usize = prefix.unicode_len();
    if s.unicode_len() < n {
        return false;
    }
    let mut i: usize = 0;
    while i < n
        invariant
            i <= n == prefix@.len() <= s@.len(),
            forall|k: int| 0 <= k < i ==> s@[k] == prefix@[k],
        decreases n - i,
    {
        if s.get_char(i) != prefix.get_char(i) {
            proof {
                assert(s@.take(n as int)[i as int] != prefix@[i as int]);
            }
            return false;
        }
        i = i + 1;
    }
    assert(s@.take(n as int) =~= prefix@);
    true
}

/// A text without the characters `c` at its start.
pub open spec fn trimmed_start(s: Seq<char>, c: char) -> Seq<char>
    decreases s.len(),
{
    if s.len() > 0 && s[0] == c {
        trimmed_start(s.drop_first(), c)
    } else {
        s
    }
}

/// A text without the characters `c` at its start.
pub fn trim_start(s: &str, c: char) -> (r: &str)
    ensures
        r@ == trimmed_start(s@, c),
{
    let chars: Vec<char> = chars_of(s);
    let mut i: usize = 0;
    assert(s@.skip(0) =~= s@);
    while i < chars.len() && chars[i] == c
        invariant
            i <= chars@.len(),
            chars@ == s@,
            trimmed_start(s@.skip(i as int), c) == trimmed_start(s@, c),
        decreases chars@.len() - i,
    {
        assert(s@.skip(i as int).drop_first() =~= s@.skip(i + 1));
        i = i + 1;
    }
    let r: &str = s.substring_char(i, chars.len());
    assert(r@ =~= s@.skip(i as int));
    r
}

/// Whether one byte string stands before another or equals it, byte by byte.
pub open spec fn bytes_le(a: Seq<u8>, b: Seq<u8>) -> bool
    decreases a.len(),
{
    a.len() == 0 || (b.len() > 0 && (a[0] < b[0] || (a[0] == b[0] && bytes_le(
        a.drop_first(),
        b.drop_first(),
    ))))
}

/// Whether one text sorts before another or equals it.
pub open spec fn text_le(a: Seq<char>, b: Seq<char>) -> bool {
    bytes_le(encode_utf8(a), encode_utf8(b))
}

/// Whether one text sorts before another or equals it.
pub fn text_less_or_equal(a: &str, b: &str) -> (r: bool)
    ensures
        r == text_le(a@, b@),
{
    let x: &[u8] = a.as_bytes();
    let y: &[u8] = b.as_bytes();
    let mut i: usize = 0;
    assert(x@.skip(0) =~= x@);
    assert(y@.skip(0) =~= y@);
    while i < x.len()
        invariant
            i <= x@.len(),
            i <= y@.len(),
            x@ == encode_utf8(a@),
            y@ == encode_utf8(b@),
            bytes_le(x@.skip(i as int), y@.skip(i as int)) == bytes_le(x@, y@),
        decreases x@.len() - i,
    {
        if i >= y.len() || x[i] > y[i] {
            return false;
        }
        if x[i] < y[i] {
            return true;
        }
        proof {
            assert(x@.skip(i as int).drop_first() =~= x@.skip(i + 1));
            assert(y@.skip(i as int).drop_first() =~= y@.skip(i + 1));
        }
        i = i + 1;
    }
    true
}

/// Sorting has a place for every two texts.
pub proof fn lemma_bytes_le_total(a: Seq<u8>, b: Seq<u8>)
    ensures
        bytes_le(a, b) || bytes_le(b, a),
    decreases a.len(),
{
    if a.len() > 0 && b.len() > 0 && a[0] == b[0] {
        lemma_bytes_le_total(a.drop_first(), b.drop_first());
    }
}

/// Sorting is transitive.
pub proof fn lemma_bytes_le_transitive(a: Seq<u8>, b: Seq<u8>, c: Seq<u8>)
    requires
        bytes_le(a, b),
        bytes_le(b, c),
    ensures
        bytes_le(a, c),
    decreases a.len(),
{
    if a.len() > 0 && b.len() > 0 && c.len() > 0 && a[0] == b[0] && b[0] == c[0] {
        lemma_bytes_le_transitive(a.drop_first(), b.drop_first(), c.drop_first());
    }
}

/// A text without this character at its end.
pub open spec fn trimmed_end(s: Seq<char>, c: char) -> Seq<char>
    decreases s.len(),
{
    if s.len() > 0 && s.last() == c {
        trimmed_end(s.drop_last(), c)
    } else {
        s
    }
}

/// The text without this character at its end.
pub fn trim_end(s: &str, c: char) -> (r: &str)
    ensures
        r@ == trimmed_end(s@, c),
{
    let mut n: usize = s.unicode_len();
    assert(s@.take(n as int) =~= s@);
    while n > 0 && s.get_char(n - 1) == c
        invariant
            n <= s@.len(),
            trimmed_end(s@, c) == trimmed_end(s@.take(n as int), c),
        decreases n,
    {
        assert(s@.take(n as int).drop_last() =~= s@.take(n - 1));
        n = n - 1;
    }
    assert(n > 0 ==> s@.take(n as int).last() == s@[n - 1]);
    let r = s.substring_char(0, n);
    assert(r@ =~= s@.take(n as int));
    r
}

/// Whether a text ends with another.
pub open spec fn ends_in(s: Seq<char>, suffix: Seq<char>) -> bool {
    suffix.len() <= s.len() && s.skip(s.len() - suffix.len()) == suffix
}

/// Whether a text ends with another.
pub fn ends_with(s: &str, suffix: &str) -> (r: bool)
    ensures
        r == ends_in(s@, suffix@),
{
    let len: usize = s.unicode_len();
    let n: usize = suffix.unicode_len();
    if len < n {
        return false;
    }
    let tail: &str = s.substring_char(len - n, len);
    assert(tail@ =~= s@.skip(len - n));
    same_text(tail, suffix)
}

/// A letter without its case.
pub open spec fn lower(c: char) -> char {
    if 'A' <= c && c <= 'Z' {
        ((c as u32) + 32) as char
    } else {
        c
    }
}

/// A text in lower case, as far as ASCII has it.
pub open spec fn lowered(s: Seq<char>) -> Seq<char> {
    s.map_values(|c: char| lower(c))
}

/// Whether a text in lower case is this one.
pub fn is_lowered(s: &str, lowercase: &str) -> (r: bool)
    ensures
        r == (lowered(s@) == lowercase@),
{
    let n: usize = s.unicode_len();
    if n != lowercase.unicode_len() {
        return false;
    }
    let mut i: usize = 0;
    while i < n
        invariant
            i <= n,
            n == s@.len(),
            n == lowercase@.len(),
            forall|k: int| 0 <= k < i ==> lower(s@[k]) == #[trigger] lowercase@[k],
        decreases n - i,
    {
        let c: char = s.get_char(i);
        let wanted: char = lowercase.get_char(i);
        let same: bool = if 'A' <= c && c <= 'Z' {
            c as u32 + 32 == wanted as u32
        } else {
            c == wanted
        };
        if !same {
            assert(lowered(s@)[i as int] != lowercase@[i as int]);
            return false;
        }
        i = i + 1;
    }
    assert(lowered(s@) =~= lowercase@);
    true
}

/// Whether a text stands in another, at some place.
pub open spec fn occurs_in(s: Seq<char>, part: Seq<char>) -> bool {
    exists|i: int|
        0 <= i <= s.len() - part.len() && #[trigger] s.subrange(i, i + part.len()) == part
}

/// Whether a text stands in another once both are in lower case.
pub fn holds_ignoring_case(s: &str, part: &str) -> (r: bool)
    ensures
        r == occurs_in(lowered(s@), lowered(part@)),
{
    let hay: Vec<char> = lower_chars(s);
    let needle: Vec<char> = lower_chars(part);
    let n: usize = needle.len();
    if n > hay.len() {
        return false;
    }
    let last: usize = hay.len() - n;
    let mut i: usize = 0;
    loop
        invariant
            hay@ == lowered(s@),
            needle@ == lowered(part@),
            n == needle@.len(),
            last == hay@.len() - n,
            i <= last,
            forall|k: int|
                0 <= k < i ==> #[trigger] hay@.subrange(k, k + needle@.len()) != needle@,
        decreases last - i,
    {
        if matches_at(&hay, &needle, i) {
            assert(hay@.subrange(i as int, i + needle@.len()) == needle@);
            return true;
        }
        if i == last {
            assert forall|k: int|
                0 <= k <= hay@.len() - needle@.len() implies #[trigger] hay@.subrange(
                k,
                k + needle@.len(),
            ) != needle@ by {}
            return false;
        }
        i = i + 1;
    }
}

fn lower_chars(s: &str) -> (r: Vec<char>)
    ensures
        r@ == lowered(s@),
{
    let chars: Vec<char> = chars_of(s);
    let mut out: Vec<char> = Vec::new();
    while out.len() < chars.len()
        invariant
            chars@ == s@,
            out@.len() <= chars@.len(),
            out@ == lowered(s@).take(out@.len() as int),
        decreases chars@.len() - out@.len(),
    {
        let c: char = chars[out.len()];
        let l: char = if 'A' <= c && c <= 'Z' {
            ((c as u8) + 32) as char
        } else {
            c
        };
        out.push(l);
        assert(out@ =~= lowered(s@).take(out@.len() as int));
    }
    assert(out@ =~= lowered(s@));
    out
}

fn matches_at(hay: &Vec<char>, needle: &Vec<char>, at: usize) -> (r: bool)
    requires
        at + needle@.len() <= hay@.len(),
    ensures
        r == (hay@.subrange(at as int, at + needle@.len()) == needle@),
{
    let room: usize = hay.len();
    let mut i: usize = 0;
    while i < needle.len()
        invariant
            i <= needle@.len(),
            room == hay@.len(),
            at + needle@.len() <= room,
            forall|k: int| 0 <= k < i ==> hay@[at + k] == #[trigger] needle@[k],
        decreases needle@.len() - i,
    {
        if hay[at + i] != needle[i] {
            assert(hay@.subrange(at as int, at + needle@.len())[i as int] != needle@[i as int]);
            return false;
        }
        i = i + 1;
    }
    assert(hay@.subrange(at as int, at + needle@.len()) =~= needle@);
    true
}

/// The value of a digit, decimal or hexadecimal in either case.
pub open spec fn digit_value(c: char) -> int {
    if '0' <= c && c <= '9' {
        c as int - '0' as int
    } else if 'a' <= c && c <= 'f' {
        c as int - 'a' as int + 10
    } else if 'A' <= c && c <= 'F' {
        c as int - 'A' as int + 10
    } else {
        -1
    }
}

/// The number that digits stand for in a base, most significant first.
pub open spec fn numeral(s: Seq<char>, base: int) -> int
    decreases s.len(),
{
    if s.len() == 0 {
        0
    } else {
        base * numeral(s.drop_last(), base) + digit_value(s.last())
    }
}

/// A number in decimal reads back as the number: its digits are decimal, and the
/// first is a zero only where it is the only one.
pub proof fn lemma_decimal_reads_back(n: nat)
    ensures
        numeral(decimal(n), 10) == n,
        decimal(n).len() >= 1,
        forall|i: int|
            0 <= i < decimal(n).len() ==> '0' <= #[trigger] decimal(n)[i] && decimal(n)[i] <= '9',
        decimal(n).len() > 1 ==> decimal(n)[0] != '0',
        decimal(n)[0] == '0' ==> n == 0,
    decreases n,
{
    reveal_with_fuel(numeral, 2);
    if n >= 10 {
        lemma_decimal_reads_back(n / 10);
        assert(decimal(n).drop_last() =~= decimal(n / 10));
        assert(decimal(n)[0] == decimal(n / 10)[0]);
    } else {
        assert(decimal(n).drop_last() =~= Seq::<char>::empty());
    }
}

/// A number in decimal with its sign: a minus and what is left of zero, or the
/// number itself.
pub proof fn lemma_signed_decimal_reads_back(n: int)
    ensures
        n >= 0 ==> numeral(signed_decimal(n), 10) == n && signed_decimal(n)[0] != '-',
        n < 0 ==> signed_decimal(n)[0] == '-' && numeral(signed_decimal(n).skip(1), 10) == -n,
{
    reveal_strlit("-");
    if n < 0 {
        lemma_decimal_reads_back((-n) as nat);
        assert(signed_decimal(n).skip(1) =~= decimal((-n) as nat));
    } else {
        lemma_decimal_reads_back(n as nat);
    }
}

/// Hexadecimal digits of a fixed width read back as what the number leaves over
/// sixteen to that power, lower-case or upper-case.
pub proof fn lemma_hex_reads_back(n: nat, width: nat)
    ensures
        hex_padded(n, width).len() == width,
        upper_hex_padded(n, width).len() == width,
        numeral(hex_padded(n, width), 16) == n % vstd::arithmetic::power::pow(16, width) as nat,
        numeral(upper_hex_padded(n, width), 16) == n % vstd::arithmetic::power::pow(
            16,
            width,
        ) as nat,
        forall|i: int|
            0 <= i < width ==> {
                let c = #[trigger] hex_padded(n, width)[i];
                ('0' <= c && c <= '9') || ('a' <= c && c <= 'f')
            },
        forall|i: int|
            0 <= i < width ==> {
                let c = #[trigger] upper_hex_padded(n, width)[i];
                ('0' <= c && c <= '9') || ('A' <= c && c <= 'F')
            },
    decreases width,
{
    vstd::arithmetic::power::lemma_pow_positive(16, width);
    if width == 0 {
        vstd::arithmetic::power::lemma_pow0(16);
    } else {
        let w = (width - 1) as nat;
        lemma_hex_reads_back(n / 16, w);
        vstd::arithmetic::power::lemma_pow_positive(16, w);
        let p = vstd::arithmetic::power::pow(16, w);
        assert(vstd::arithmetic::power::pow(16, width) == 16 * p) by {
            reveal(vstd::arithmetic::power::pow);
        }
        assert(hex_padded(n, width).drop_last() =~= hex_padded(n / 16, w));
        assert(upper_hex_padded(n, width).drop_last() =~= upper_hex_padded(n / 16, w));
        vstd::arithmetic::div_mod::lemma_mod_breakdown(n as int, 16, p);
    }
}

/// A number has as many hexadecimal digits as it needs and no more.
pub proof fn lemma_hex_width(n: nat)
    ensures
        hex_width(n) >= 1,
        n < vstd::arithmetic::power::pow(16, hex_width(n)),
        hex_width(n) > 1 ==> vstd::arithmetic::power::pow(16, (hex_width(n) - 1) as nat) <= n,
    decreases n,
{
    reveal(vstd::arithmetic::power::pow);
    reveal_with_fuel(vstd::arithmetic::power::pow, 3);
    if n >= 16 {
        lemma_hex_width(n / 16);
        let w = hex_width(n / 16);
        assert(vstd::arithmetic::power::pow(16, w + 1) == 16 * vstd::arithmetic::power::pow(16, w));
        if w > 1 {
            assert(vstd::arithmetic::power::pow(16, w) == 16 * vstd::arithmetic::power::pow(
                16,
                (w - 1) as nat,
            ));
        }
    }
}

/// A number in hexadecimal reads back as the number: as it is shown alone, with
/// four digits at least, and behind `0x` with eight at least.
pub proof fn lemma_hex_shows_the_number(n: nat)
    ensures
        numeral(upper_hex(n), 16) == n,
        numeral(upper_hex4(n), 16) == n,
        upper_hex4(n).len() >= 4,
        hex8(n).len() >= 10,
        hex8(n)[0] == '0',
        hex8(n)[1] == 'x',
        numeral(hex8(n).skip(2), 16) == n,
        upper_hex(n).len() > 1 ==> upper_hex(n)[0] != '0',
{
    let w = hex_width(n);
    lemma_hex_width(n);
    let four = if w < 4 { 4 } else { w };
    let eight = if w < 8 { 8 } else { w };
    lemma_hex_reads_back(n, w);
    lemma_hex_reads_back(n, four);
    lemma_hex_reads_back(n, eight);
    vstd::arithmetic::power::lemma_pow_increases(16, w, four);
    vstd::arithmetic::power::lemma_pow_increases(16, w, eight);
    vstd::arithmetic::div_mod::lemma_small_mod(n, vstd::arithmetic::power::pow(16, w) as nat);
    vstd::arithmetic::div_mod::lemma_small_mod(n, vstd::arithmetic::power::pow(16, four) as nat);
    vstd::arithmetic::div_mod::lemma_small_mod(n, vstd::arithmetic::power::pow(16, eight) as nat);
    reveal_strlit("0x");
    assert(hex8(n).skip(2) =~= hex_padded(n, eight));
    if w > 1 {
        lemma_first_digit(n, w);
    }
}

/// The first of so many hexadecimal digits is what is left over the rest.
proof fn lemma_first_digit(n: nat, width: nat)
    requires
        width >= 1,
        n < vstd::arithmetic::power::pow(16, width),
        vstd::arithmetic::power::pow(16, (width - 1) as nat) <= n,
    ensures
        upper_hex_padded(n, width)[0] != '0',
    decreases width,
{
    reveal(vstd::arithmetic::power::pow);
    lemma_hex_reads_back(n, width);
    if width > 1 {
        let w = (width - 1) as nat;
        lemma_hex_reads_back(n / 16, w);
        assert(vstd::arithmetic::power::pow(16, width) == 16 * vstd::arithmetic::power::pow(16, w));
        assert(vstd::arithmetic::power::pow(16, w) == 16 * vstd::arithmetic::power::pow(
            16,
            (w - 1) as nat,
        ));
        lemma_first_digit(n / 16, w);
        assert(upper_hex_padded(n, width)[0] == upper_hex_padded(n / 16, w)[0]);
    } else {
        assert(vstd::arithmetic::power::pow(16, 0) == 1);
        reveal_with_fuel(vstd::arithmetic::power::pow, 3);
        assert(vstd::arithmetic::power::pow(16, 1) == 16);
        reveal_with_fuel(upper_hex_padded, 2);
    }
}

/// The parts of a text between the separators in it.
#[verifier::opaque]
pub open spec fn split_at(s: Seq<char>, separator: char) -> Seq<Seq<char>>
    decreases s.len(),
{
    if s.len() == 0 {
        seq![Seq::empty()]
    } else {
        let before = split_at(s.drop_last(), separator);
        if s.last() == separator {
            before.push(Seq::empty())
        } else {
            before.drop_last().push(before.last().push(s.last()))
        }
    }
}

/// A part without separators behind one separator is a part of its own.
pub proof fn lemma_split_appends(s: Seq<char>, part: Seq<char>, separator: char)
    requires
        !part.contains(separator),
    ensures
        split_at(s, separator).len() >= 1,
        split_at(s + seq![separator] + part, separator) == split_at(s, separator).push(part),
    decreases part.len(),
{
    reveal(split_at);
    lemma_split_has_a_part(s, separator);
    let whole = s + seq![separator] + part;
    if part.len() == 0 {
        assert(whole.drop_last() =~= s);
        assert(part =~= Seq::<char>::empty());
    } else {
        let rest = part.drop_last();
        assert forall|i: int| 0 <= i < rest.len() implies rest[i] != separator by {
            assert(part.contains(part[i]));
        }
        assert(part.contains(part.last()));
        lemma_split_appends(s, rest, separator);
        assert(whole.drop_last() =~= s + seq![separator] + rest);
        let before = split_at(s, separator).push(rest);
        assert(before.drop_last() =~= split_at(s, separator));
        assert(rest.push(part.last()) =~= part);
    }
}

/// Splitting gives at least one part; of a text without separators, the text.
pub proof fn lemma_split_has_a_part(s: Seq<char>, separator: char)
    ensures
        split_at(s, separator).len() >= 1,
        !s.contains(separator) ==> split_at(s, separator) == seq![s],
    decreases s.len(),
{
    reveal(split_at);
    if s.len() > 0 {
        lemma_split_has_a_part(s.drop_last(), separator);
        if !s.contains(separator) {
            assert forall|i: int| 0 <= i < s.len() - 1 implies s.drop_last()[i] != separator by {
                assert(s.contains(s[i]));
            }
            assert(s.contains(s.last()));
            assert(seq![s.drop_last()].drop_last() =~= Seq::<Seq<char>>::empty());
            assert(s.drop_last().push(s.last()) =~= s);
            assert(split_at(s, separator) =~= seq![s]);
        }
    } else {
        assert(s =~= Seq::<char>::empty());
    }
}

} // verus!
