//! Numbers and addresses as text, and the few string tests that settings need.

use vstd::prelude::*;
use vstd::string::*;

verus! {

/// The character of one digit, lower case above nine.
pub open spec fn digit_char(d: nat) -> char {
    if d < 10 {
        (48 + d) as char
    } else {
        (87 + d) as char
    }
}

/// `n` in the given base, without leading zeros.
pub open spec fn digits(n: nat, base: nat) -> Seq<char>
    decreases n,
{
    if base < 2 || n < base {
        seq![digit_char(n)]
    } else {
        proof {
            assert(n / base < n) by (nonlinear_arith)
                requires
                    n >= base,
                    base >= 2,
            ;
        }
        digits(n / base, base).push(digit_char(n % base))
    }
}

/// `n` in decimal.
pub open spec fn decimal(n: nat) -> Seq<char> {
    digits(n, 10)
}

/// An IPv4 address in dotted decimal.
pub open spec fn ipv4_chars(a: u8, b: u8, c: u8, d: u8) -> Seq<char> {
    decimal(a as nat) + seq!['.'] + decimal(b as nat) + seq!['.'] + decimal(c as nat) + seq!['.']
        + decimal(d as nat)
}

/// The eight 16-bit groups of a 16-byte address.
pub open spec fn ipv6_groups(bytes: Seq<u8>) -> Seq<nat> {
    Seq::new(8, |i: int| (bytes[2 * i] * 256 + bytes[2 * i + 1]) as nat)
}

/// Groups in lower-case hexadecimal, separated by colons.
pub open spec fn joined_groups(groups: Seq<nat>) -> Seq<char>
    decreases groups.len(),
{
    if groups.len() == 0 {
        Seq::empty()
    } else if groups.len() == 1 {
        digits(groups[0], 16)
    } else {
        joined_groups(groups.drop_last()) + seq![':'] + digits(groups.last(), 16)
    }
}

/// How many zero groups follow each other from index `i` on.
pub open spec fn zero_run(groups: Seq<nat>, i: int) -> int
    decreases groups.len() - i,
{
    if i < 0 || i >= groups.len() || groups[i] != 0 {
        0
    } else {
        1 + zero_run(groups, i + 1)
    }
}

/// Whether the run of zeros at `at` is the longest, and the first of that length.
pub open spec fn is_longest_run(groups: Seq<nat>, at: int) -> bool {
    &&& 0 <= at < groups.len()
    &&& forall|j: int|
        0 <= j < groups.len() ==> #[trigger] zero_run(groups, j) <= zero_run(groups, at)
    &&& forall|j: int| 0 <= j < at ==> #[trigger] zero_run(groups, j) < zero_run(groups, at)
}

/// Where the longest run of zero groups starts.
pub open spec fn longest_run(groups: Seq<nat>) -> int {
    choose|at: int| is_longest_run(groups, at)
}

/// Whether a 16-byte address is an IPv4 address in the range `::ffff:0:0/96`.
pub open spec fn is_ipv4_mapped(bytes: Seq<u8>) -> bool {
    &&& forall|i: int| 0 <= i < 10 ==> #[trigger] bytes[i] == 0
    &&& bytes[10] == 0xff
    &&& bytes[11] == 0xff
}

/// A 16-byte address in the canonical text form: groups in lower-case hexadecimal, the first longest
/// run of two or more zero groups written `::`, an IPv4-mapped address with its dotted part.
pub open spec fn ipv6_chars(bytes: Seq<u8>) -> Seq<char> {
    let groups: Seq<nat> = ipv6_groups(bytes);
    let at: int = longest_run(groups);
    let run: int = zero_run(groups, at);
    if is_ipv4_mapped(bytes) {
        "::ffff:"@ + ipv4_chars(bytes[12], bytes[13], bytes[14], bytes[15])
    } else if run > 1 {
        joined_groups(groups.take(at)) + "::"@ + joined_groups(groups.skip(at + run))
    } else {
        joined_groups(groups)
    }
}

/// Appends one digit.
fn push_digit(out: &mut String, d: u64)
    requires
        d < 16,
    ensures
        final(out)@ == old(out)@.push(digit_char(d as nat)),
{
    let s: &str = match d {
        0 => "0",
        1 => "1",
        2 => "2",
        3 => "3",
        4 => "4",
        5 => "5",
        6 => "6",
        7 => "7",
        8 => "8",
        9 => "9",
        10 => "a",
        11 => "b",
        12 => "c",
        13 => "d",
        14 => "e",
        _ => "f",
    };
    proof {
        reveal_strlit("0");
        reveal_strlit("1");
        reveal_strlit("2");
        reveal_strlit("3");
        reveal_strlit("4");
        reveal_strlit("5");
        reveal_strlit("6");
        reveal_strlit("7");
        reveal_strlit("8");
        reveal_strlit("9");
        reveal_strlit("a");
        reveal_strlit("b");
        reveal_strlit("c");
        reveal_strlit("d");
        reveal_strlit("e");
        reveal_strlit("f");
    }
    out.append(s);
    assert(out@ =~= old(out)@.push(digit_char(d as nat)));
}

/// Appends `n` in the given base.
pub fn push_number(out: &mut String, n: u64, base: u64)
    requires
        2 <= base <= 16,
    ensures
        final(out)@ == old(out)@ + digits(n as nat, base as nat),
    decreases n,
{
    if n >= base {
        assert(n / base < n) by (nonlinear_arith)
            requires
                n >= base,
                base >= 2,
        ;
        push_number(out, n / base, base);
    }
    let ghost before: Seq<char> = out@;
    push_digit(out, n % base);
    proof {
        if n < base {
            vstd::arithmetic::div_mod::lemma_small_mod(n as nat, base as nat);
            assert(before =~= old(out)@);
            assert(digits(n as nat, base as nat) =~= seq![digit_char(n as nat)]);
        } else {
            assert(before =~= old(out)@ + digits((n / base) as nat, base as nat));
            assert(digits(n as nat, base as nat) =~= digits(
                (n / base) as nat,
                base as nat,
            ).push(digit_char((n % base) as nat)));
        }
    }
    assert(out@ =~= old(out)@ + digits(n as nat, base as nat));
}

/// `n` in decimal.
pub fn decimal_text(n: u64) -> (s: String)
    ensures
        s@ == decimal(n as nat),
{
    let mut out: String = String::new();
    push_number(&mut out, n, 10);
    assert(out@ =~= decimal(n as nat));
    out
}

/// Appends an IPv4 address in dotted decimal.
pub fn push_ipv4(out: &mut String, a: u8, b: u8, c: u8, d: u8)
    ensures
        final(out)@ == old(out)@ + ipv4_chars(a, b, c, d),
{
    proof {
        reveal_strlit(".");
        assert("."@ =~= seq!['.']);
    }
    push_number(out, a as u64, 10);
    out.append(".");
    push_number(out, b as u64, 10);
    out.append(".");
    push_number(out, c as u64, 10);
    out.append(".");
    push_number(out, d as u64, 10);
    assert(out@ =~= old(out)@ + ipv4_chars(a, b, c, d));
}

/// An IPv4 address in dotted decimal.
pub fn ipv4_text(a: u8, b: u8, c: u8, d: u8) -> (s: String)
    ensures
        s@ == ipv4_chars(a, b, c, d),
{
    let mut out: String = String::new();
    push_ipv4(&mut out, a, b, c, d);
    assert(out@ =~= ipv4_chars(a, b, c, d));
    out
}

/// Appends the groups `from..to` of a 16-byte address.
fn push_groups(out: &mut String, bytes: &[u8], from: usize, to: usize)
    requires
        bytes@.len() == 16,
        from <= to <= 8,
    ensures
        final(out)@ == old(out)@ + joined_groups(
            ipv6_groups(bytes@).subrange(from as int, to as int),
        ),
{
    let ghost groups: Seq<nat> = ipv6_groups(bytes@);
    proof {
        reveal_strlit(":");
        assert(":"@ =~= seq![':']);
    }
    let mut i: usize = from;
    assert(out@ =~= old(out)@ + joined_groups(groups.subrange(from as int, from as int)));
    while i < to
        invariant
            bytes@.len() == 16,
            groups == ipv6_groups(bytes@),
            from <= i <= to <= 8,
            ":"@ == seq![':'],
            out@ == old(out)@ + joined_groups(groups.subrange(from as int, i as int)),
        decreases to - i,
    {
        let ghost done: Seq<nat> = groups.subrange(from as int, i as int);
        let ghost next: Seq<nat> = groups.subrange(from as int, i + 1);
        let ghost before: Seq<char> = out@;
        if i > from {
            out.append(":");
        }
        let group: u64 = (bytes[2 * i] as u64) * 256 + bytes[2 * i + 1] as u64;
        push_number(out, group, 16);
        proof {
            assert(next.drop_last() =~= done);
            assert(next.last() == groups[i as int]);
            assert(group == groups[i as int]);
            if i == from {
                assert(next.len() == 1);
                assert(done.len() == 0);
                assert(out@ =~= old(out)@ + joined_groups(next));
            } else {
                assert(out@ =~= old(out)@ + joined_groups(next));
            }
        }
        i += 1;
    }
}

/// The length of the run of zero groups from index `at` on.
fn run_length(bytes: &[u8], at: usize) -> (n: usize)
    requires
        bytes@.len() == 16,
        at <= 8,
    ensures
        n == zero_run(ipv6_groups(bytes@), at as int),
        at + n <= 8,
    decreases 8 - at,
{
    if at >= 8 || bytes[2 * at] != 0 || bytes[2 * at + 1] != 0 {
        0
    } else {
        1 + run_length(bytes, at + 1)
    }
}

/// The start of the first longest run of zero groups.
fn find_longest_run(bytes: &[u8]) -> (best: (usize, usize))
    requires
        bytes@.len() == 16,
    ensures
        best.0 == longest_run(ipv6_groups(bytes@)),
        best.1 == zero_run(ipv6_groups(bytes@), best.0 as int),
        best.0 + best.1 <= 8,
{
    let ghost groups: Seq<nat> = ipv6_groups(bytes@);
    let mut at: usize = 0;
    let mut len: usize = run_length(bytes, 0);
    let mut i: usize = 1;
    while i < 8
        invariant
            bytes@.len() == 16,
            groups == ipv6_groups(bytes@),
            1 <= i <= 8,
            at < i,
            len == zero_run(groups, at as int),
            at + len <= 8,
            forall|j: int| 0 <= j < i ==> #[trigger] zero_run(groups, j) <= len,
            forall|j: int| 0 <= j < at ==> #[trigger] zero_run(groups, j) < len,
        decreases 8 - i,
    {
        let n: usize = run_length(bytes, i);
        if n > len {
            at = i;
            len = n;
        }
        i += 1;
    }
    proof {
        assert(is_longest_run(groups, at as int));
        let chosen: int = longest_run(groups);
        assert(is_longest_run(groups, chosen));
        assert(zero_run(groups, chosen) <= zero_run(groups, at as int));
        assert(zero_run(groups, at as int) <= zero_run(groups, chosen));
    }
    (at, len)
}

/// A 16-byte address in its canonical text form.
pub fn ipv6_text(bytes: &[u8]) -> (s: String)
    requires
        bytes@.len() == 16,
    ensures
        s@ == ipv6_chars(bytes@),
{
    let ghost groups: Seq<nat> = ipv6_groups(bytes@);
    let mut out: String = String::new();
    let mut i: usize = 0;
    while i < 10 && bytes[i] == 0
        invariant
            bytes@.len() == 16,
            i <= 10,
            forall|j: int| 0 <= j < i ==> #[trigger] bytes@[j] == 0,
        decreases 10 - i,
    {
        i += 1;
    }
    if i == 10 && bytes[10] == 0xff && bytes[11] == 0xff {
        out.append("::ffff:");
        push_ipv4(&mut out, bytes[12], bytes[13], bytes[14], bytes[15]);
        assert(out@ =~= ipv6_chars(bytes@));
        return out;
    }
    assert(!is_ipv4_mapped(bytes@));
    let (at, run) = find_longest_run(bytes);
    if run > 1 {
        push_groups(&mut out, bytes, 0, at);
        out.append("::");
        push_groups(&mut out, bytes, at + run, 8);
        assert(groups.subrange(0, at as int) =~= groups.take(at as int));
        assert(groups.subrange(at + run, 8) =~= groups.skip(at + run));
        assert(out@ =~= ipv6_chars(bytes@));
    } else {
        push_groups(&mut out, bytes, 0, 8);
        assert(groups.subrange(0, 8) =~= groups);
        assert(out@ =~= ipv6_chars(bytes@));
    }
    out
}

/// Whether `c` is a decimal digit.
pub open spec fn is_digit(c: char) -> bool {
    '0' <= c <= '9'
}

/// The number that decimal digits write.
pub open spec fn digits_value(s: Seq<char>) -> int
    decreases s.len(),
{
    if s.len() == 0 {
        0
    } else {
        digits_value(s.drop_last()) * 10 + (s.last() as int - '0' as int)
    }
}

/// What follows an optional plus sign.
pub open spec fn without_plus(s: Seq<char>) -> Seq<char> {
    if s.len() > 0 && s[0] == '+' {
        s.skip(1)
    } else {
        s
    }
}

/// The number up to `max` that a text writes in decimal: at least one digit, after an optional plus
/// sign and with nothing else around.
pub open spec fn parsed_unsigned(s: Seq<char>, max: int) -> Option<int> {
    let number: Seq<char> = without_plus(s);
    if number.len() > 0 && (forall|i: int|
        0 <= i < number.len() ==> is_digit(#[trigger] number[i])) && digits_value(number) <= max {
        Some(digits_value(number))
    } else {
        None
    }
}

/// `c` with an upper-case ASCII letter made lower-case.
pub open spec fn lower_char(c: char) -> char {
    if 'A' <= c <= 'Z' {
        (c as u32 + 32) as char
    } else {
        c
    }
}

/// `s` with the upper-case ASCII letters made lower-case.
pub open spec fn lowered(s: Seq<char>) -> Seq<char> {
    Seq::new(s.len(), |i: int| lower_char(s[i]))
}

/// Whether Unicode counts `c` as white space.
pub open spec fn is_white_space(c: char) -> bool {
    ||| '\u{9}' <= c <= '\u{d}'
    ||| c == ' '
    ||| c == '\u{85}'
    ||| c == '\u{a0}'
    ||| c == '\u{1680}'
    ||| '\u{2000}' <= c <= '\u{200a}'
    ||| c == '\u{2028}'
    ||| c == '\u{2029}'
    ||| c == '\u{202f}'
    ||| c == '\u{205f}'
    ||| c == '\u{3000}'
}

/// `s` without the white space at its two ends.
pub open spec fn trimmed(s: Seq<char>) -> Seq<char>
    decreases s.len(),
{
    if s.len() > 0 && is_white_space(s[0]) {
        trimmed(s.skip(1))
    } else if s.len() > 0 && is_white_space(s.last()) {
        trimmed(s.drop_last())
    } else {
        s
    }
}

proof fn lemma_value_grows(s: Seq<char>, n: int)
    requires
        0 <= n <= s.len(),
        forall|i: int| 0 <= i < s.len() ==> is_digit(#[trigger] s[i]),
    ensures
        0 <= digits_value(s.take(n)) <= digits_value(s),
    decreases s.len(),
{
    if n < s.len() {
        assert(s.drop_last().take(n) =~= s.take(n));
        assert(is_digit(s[s.len() - 1]));
        lemma_value_grows(s.drop_last(), n);
    } else {
        assert(s.take(n) =~= s);
        if n > 0 {
            assert(s.drop_last().take(n - 1) =~= s.drop_last());
            assert(is_digit(s[n - 1]));
            lemma_value_grows(s.drop_last(), n - 1);
        }
    }
}

/// The number up to `max` that `text` writes in decimal.
pub fn parse_unsigned(text: &str, max: u64) -> (n: Option<u64>)
    ensures
        match n {
            Some(v) => parsed_unsigned(text@, max as int) == Some(v as int),
            None => parsed_unsigned(text@, max as int) is None,
        },
{
    let len: usize = text.unicode_len();
    let start: usize = if len > 0 && text.get_char(0) == '+' {
        1
    } else {
        0
    };
    let ghost number: Seq<char> = without_plus(text@);
    assert(number =~= text@.skip(start as int));
    if start == len {
        return None;
    }
    let mut value: u64 = 0;
    let mut i: usize = start;
    assert(number.take(0) =~= Seq::<char>::empty());
    while i < len
        invariant
            start <= i <= len,
            start < len,
            len == text@.len(),
            number == without_plus(text@),
            number == text@.skip(start as int),
            forall|j: int| 0 <= j < i - start ==> is_digit(#[trigger] number[j]),
            value == digits_value(number.take(i - start)),
            value <= max,
        decreases len - i,
    {
        let c: char = text.get_char(i);
        assert(c == number[i - start]);
        if !('0' <= c && c <= '9') {
            return None;
        }
        let d: u64 = c as u64 - '0' as u64;
        proof {
            let next: Seq<char> = number.take(i + 1 - start);
            assert(next.drop_last() =~= number.take(i - start));
            assert(next.last() == c);
            assert(digits_value(next) == value * 10 + d);
            if value * 10 + d > max && (forall|j: int|
                0 <= j < number.len() ==> is_digit(#[trigger] number[j])) {
                lemma_value_grows(number, i + 1 - start);
            }
        }
        if d > max || value > (max - d) / 10 {
            return None;
        }
        value = value * 10 + d;
        i += 1;
    }
    assert(number.take(len - start) =~= number);
    Some(value)
}

/// Whether `text` is `word` once its upper-case ASCII letters are made lower-case.
pub fn lowered_is(text: &str, word: &str) -> (r: bool)
    ensures
        r == (lowered(text@) == word@),
{
    let len: usize = text.unicode_len();
    if len != word.unicode_len() {
        assert(lowered(text@).len() != word@.len());
        return false;
    }
    let mut i: usize = 0;
    while i < len
        invariant
            i <= len,
            len == text@.len(),
            len == word@.len(),
            forall|j: int| 0 <= j < i ==> lower_char(text@[j]) == #[trigger] word@[j],
        decreases len - i,
    {
        let c: char = text.get_char(i);
        let low: char = if 'A' <= c && c <= 'Z' {
            (c as u8 + 32) as char
        } else {
            c
        };
        assert(low == lower_char(text@[i as int]));
        if low != word.get_char(i) {
            assert(lowered(text@)[i as int] != word@[i as int]);
            return false;
        }
        i += 1;
    }
    assert(lowered(text@) =~= word@);
    true
}

/// Whether two texts are the same.
pub fn same_text(text: &str, word: &str) -> (r: bool)
    ensures
        r == (text@ == word@),
{
    let len: usize = text.unicode_len();
    if len != word.unicode_len() {
        return false;
    }
    let mut i: usize = 0;
    while i < len
        invariant
            i <= len,
            len == text@.len(),
            len == word@.len(),
            forall|j: int| 0 <= j < i ==> text@[j] == #[trigger] word@[j],
        decreases len - i,
    {
        if text.get_char(i) != word.get_char(i) {
            return false;
        }
        i += 1;
    }
    assert(text@ =~= word@);
    true
}

/// Whether Unicode counts `c` as white space.
fn white_space(c: char) -> (r: bool)
    ensures
        r == is_white_space(c),
{
    ('\u{9}' <= c && c <= '\u{d}') || c == ' ' || c == '\u{85}' || c == '\u{a0}' || c == '\u{1680}'
        || ('\u{2000}' <= c && c <= '\u{200a}') || c == '\u{2028}' || c == '\u{2029}'
        || c == '\u{202f}' || c == '\u{205f}' || c == '\u{3000}'
}

/// `text` without the white space at its two ends.
pub fn trim<'a>(text: &'a str) -> (s: &'a str)
    ensures
        s@ == trimmed(text@),
{
    let len: usize = text.unicode_len();
    let mut from: usize = 0;
    let mut to: usize = len;
    assert(text@.subrange(0, len as int) =~= text@);
    while from < to && white_space(text.get_char(from))
        invariant
            from <= to,
            to == len,
            len == text@.len(),
            trimmed(text@.subrange(from as int, to as int)) == trimmed(text@),
        decreases to - from,
    {
        let ghost rest: Seq<char> = text@.subrange(from as int, to as int);
        assert(rest.skip(1) =~= text@.subrange(from + 1, to as int));
        from += 1;
    }
    while from < to && white_space(text.get_char(to - 1))
        invariant
            from <= to <= len,
            len == text@.len(),
            from < to ==> !is_white_space(text@[from as int]),
            trimmed(text@.subrange(from as int, to as int)) == trimmed(text@),
        decreases to - from,
    {
        let ghost rest: Seq<char> = text@.subrange(from as int, to as int);
        assert(rest.drop_last() =~= text@.subrange(from as int, to - 1));
        to -= 1;
    }
    text.substring_char(from, to)
}

proof fn lemma_decimal_value(n: nat)
    ensures
        decimal(n).len() > 0,
        forall|i: int| 0 <= i < decimal(n).len() ==> is_digit(#[trigger] decimal(n)[i]),
        digits_value(decimal(n)) == n,
    decreases n,
{
    if n < 10 {
        reveal_with_fuel(digits_value, 2);
        assert(decimal(n) =~= seq![digit_char(n)]);
        assert(decimal(n).drop_last() =~= Seq::<char>::empty());
    } else {
        lemma_decimal_value(n / 10);
        assert(decimal(n).drop_last() =~= decimal(n / 10));
        assert(decimal(n).last() == digit_char(n % 10));
    }
}

/// A number that is written in decimal reads back as itself.
pub proof fn decimal_round_trip(n: nat, max: int)
    requires
        n <= max,
    ensures
        parsed_unsigned(decimal(n), max) == Some(n as int),
{
    lemma_decimal_value(n);
    assert(is_digit(decimal(n)[0]));
}

/// Whether a text is the number `n` in decimal as people write it: digits only, at least one, and no
/// leading zero but in zero itself.
pub open spec fn writes_number(s: Seq<char>, n: int) -> bool {
    &&& s.len() > 0
    &&& forall|i: int| 0 <= i < s.len() ==> '0' <= #[trigger] s[i] <= '9'
    &&& s.len() > 1 ==> s[0] != '0'
    &&& digits_value(s) == n
}

/// Digits are worth ten times what stands before them, and their own value.
pub proof fn digits_count_in_tens(s: Seq<char>, c: char)
    ensures
        digits_value(Seq::<char>::empty()) == 0,
        digits_value(s.push(c)) == 10 * digits_value(s) + (c as int - 48),
{
    assert(s.push(c).drop_last() =~= s);
}

proof fn lemma_decimal_front(n: nat)
    ensures
        n > 0 ==> decimal(n)[0] != '0',
        decimal(n).len() > 0,
        n < 10 ==> decimal(n).len() == 1,
        n >= 10 ==> decimal(n).len() > 1,
    decreases n,
{
    if n >= 10 {
        lemma_decimal_front(n / 10);
        assert(decimal(n)[0] == decimal(n / 10)[0]);
    }
}

/// A number is written as people write it.
pub proof fn decimal_writes_the_number(n: nat)
    ensures
        writes_number(decimal(n), n as int),
{
    lemma_decimal_value(n);
    lemma_decimal_front(n);
    assert forall|i: int| 0 <= i < decimal(n).len() implies '0' <= #[trigger] decimal(n)[i]
        <= '9' by {
        assert(is_digit(decimal(n)[i]));
    }
}

/// Whether what follows the first `from` characters of a text is digits, at least one, worth no more
/// than `max`, where only a plus sign may stand before them.
pub open spec fn is_number_from(s: Seq<char>, from: int, max: int) -> bool {
    &&& from == 0 || (from == 1 && s.len() > 0 && s[0] == '+')
    &&& from < s.len()
    &&& forall|i: int| from <= i < s.len() ==> '0' <= #[trigger] s[i] <= '9'
    &&& digits_value(s.skip(from)) <= max
}

/// A text reads as a number exactly where it is digits, after at most one plus sign, that are worth no
/// more than the limit; and then it reads as what they are worth.
pub proof fn numbers_are_digits(s: Seq<char>, max: int)
    ensures
        is_number_from(s, 0, max) ==> parsed_unsigned(s, max) == Some(digits_value(s)),
        is_number_from(s, 1, max) ==> parsed_unsigned(s, max) == Some(digits_value(s.skip(1))),
        !is_number_from(s, 0, max) && !is_number_from(s, 1, max) ==> parsed_unsigned(s, max) is None,
{
    let from: int = if s.len() > 0 && s[0] == '+' {
        1
    } else {
        0
    };
    assert(s.skip(0) =~= s);
    let number: Seq<char> = without_plus(s);
    assert(number =~= s.skip(from));
    if is_number_from(s, from, max) {
        assert forall|i: int| 0 <= i < number.len() implies is_digit(#[trigger] number[i]) by {
            assert('0' <= s[i + from] <= '9');
        }
    } else if parsed_unsigned(s, max) is Some {
        assert forall|i: int| from <= i < s.len() implies '0' <= #[trigger] s[i] <= '9' by {
            assert(number[i - from] == s[i]);
            assert(is_digit(number[i - from]));
        }
    }
    if from == 1 {
        assert(!('0' <= s[0] <= '9'));
    }
}

/// An IPv4 address is written as its four numbers with a dot between them.
pub proof fn ipv4_text_has_four_numbers(a: u8, b: u8, c: u8, d: u8)
    ensures
        exists|i: int, j: int, k: int|
            #![trigger ipv4_chars(a, b, c, d).subrange(i + 1, j), ipv4_chars(a, b, c, d).subrange(
                j + 1,
                k,
            )]
            {
                let s: Seq<char> = ipv4_chars(a, b, c, d);
                &&& 0 < i < j < k < s.len()
                &&& s[i] == '.' && s[j] == '.' && s[k] == '.'
                &&& writes_number(s.subrange(0, i), a as int)
                &&& writes_number(s.subrange(i + 1, j), b as int)
                &&& writes_number(s.subrange(j + 1, k), c as int)
                &&& writes_number(s.subrange(k + 1, s.len() as int), d as int)
            },
{
    let s: Seq<char> = ipv4_chars(a, b, c, d);
    let (da, db, dc, dd) = (
        decimal(a as nat),
        decimal(b as nat),
        decimal(c as nat),
        decimal(d as nat),
    );
    decimal_writes_the_number(a as nat);
    decimal_writes_the_number(b as nat);
    decimal_writes_the_number(c as nat);
    decimal_writes_the_number(d as nat);
    let i: int = da.len() as int;
    let j: int = i + 1 + db.len();
    let k: int = j + 1 + dc.len();
    assert(s.subrange(0, i) =~= da);
    assert(s.subrange(i + 1, j) =~= db);
    assert(s.subrange(j + 1, k) =~= dc);
    assert(s.subrange(k + 1, s.len() as int) =~= dd);
    assert(s[i] == '.' && s[j] == '.' && s[k] == '.');
}

/// Lower-casing moves the 26 upper-case letters of ASCII and nothing else, each to its lower-case
/// form, and a text keeps its length.
pub proof fn lowering_moves_only_capitals(s: Seq<char>, i: int)
    requires
        0 <= i < s.len(),
    ensures
        lowered(s).len() == s.len(),
        65 <= s[i] as u32 <= 90 ==> lowered(s)[i] as u32 == s[i] as u32 + 32,
        !(65 <= s[i] as u32 <= 90) ==> lowered(s)[i] == s[i],
{
}

/// Whether `s[i..j]` is what is between the white space at the ends of `s`.
pub open spec fn is_core(s: Seq<char>, i: int, j: int) -> bool {
    &&& 0 <= i <= j <= s.len()
    &&& forall|k: int| 0 <= k < i ==> is_white_space(#[trigger] s[k])
    &&& forall|k: int| j <= k < s.len() ==> is_white_space(#[trigger] s[k])
    &&& i < j ==> !is_white_space(s[i]) && !is_white_space(s[j - 1])
}

proof fn lemma_core_front(s: Seq<char>, i: int, j: int)
    requires
        s.len() > 0,
        is_white_space(s[0]),
        is_core(s.skip(1), i, j),
    ensures
        is_core(s, i + 1, j + 1),
        s.subrange(i + 1, j + 1) == s.skip(1).subrange(i, j),
{
    let t: Seq<char> = s.skip(1);
    assert(s.subrange(i + 1, j + 1) =~= t.subrange(i, j));
    assert forall|k: int| 0 <= k < i + 1 implies is_white_space(#[trigger] s[k]) by {
        if k > 0 {
            assert(is_white_space(t[k - 1]));
        }
    }
    assert forall|k: int| j + 1 <= k < s.len() implies is_white_space(#[trigger] s[k]) by {
        assert(is_white_space(t[k - 1]));
    }
}

proof fn lemma_core_back(s: Seq<char>, i: int, j: int)
    requires
        s.len() > 0,
        is_white_space(s.last()),
        is_core(s.drop_last(), i, j),
    ensures
        is_core(s, i, j),
        s.subrange(i, j) == s.drop_last().subrange(i, j),
{
    let t: Seq<char> = s.drop_last();
    assert(s.subrange(i, j) =~= t.subrange(i, j));
    assert forall|k: int| 0 <= k < i implies is_white_space(#[trigger] s[k]) by {
        assert(is_white_space(t[k]));
    }
    assert forall|k: int| j <= k < s.len() implies is_white_space(#[trigger] s[k]) by {
        if k < t.len() {
            assert(is_white_space(t[k]));
        }
    }
}

proof fn lemma_trimmed_core(s: Seq<char>) -> (core: (int, int))
    ensures
        is_core(s, core.0, core.1),
        trimmed(s) == s.subrange(core.0, core.1),
    decreases s.len(),
{
    if s.len() > 0 && is_white_space(s[0]) {
        let (i, j) = lemma_trimmed_core(s.skip(1));
        lemma_core_front(s, i, j);
        (i + 1, j + 1)
    } else if s.len() > 0 && is_white_space(s.last()) {
        let (i, j) = lemma_trimmed_core(s.drop_last());
        lemma_core_back(s, i, j);
        (i, j)
    } else {
        assert(s.subrange(0, s.len() as int) =~= s);
        (0, s.len() as int)
    }
}

/// What trimming leaves is the part of the text between white space: what is cut off at either end is
/// white space, and the ends of what is left are not.
pub proof fn trimming_cuts_white_space(s: Seq<char>)
    ensures
        exists|i: int, j: int| #[trigger] is_core(s, i, j) && trimmed(s) == s.subrange(i, j),
{
    let (i, j) = lemma_trimmed_core(s);
    assert(is_core(s, i, j));
}

/// The characters that count as white space, by their code points.
pub proof fn white_space_by_code_point(c: char)
    ensures
        is_white_space(c) <==> {
            let n: u32 = c as u32;
            9 <= n <= 13 || n == 32 || n == 133 || n == 160 || n == 5760 || 8192 <= n <= 8202 || n
                == 8232 || n == 8233 || n == 8239 || n == 8287 || n == 12288
        },
{
}

/// What hexadecimal digits are worth.
pub open spec fn hex_value(s: Seq<char>) -> int
    decreases s.len(),
{
    if s.len() == 0 {
        0
    } else {
        16 * hex_value(s.drop_last()) + (if s.last() <= '9' {
            s.last() as int - 48
        } else {
            s.last() as int - 87
        })
    }
}

/// A number in hexadecimal has digits and the letters `a` to `f` only, no leading zero but in zero
/// itself, and is worth the number.
pub proof fn hexadecimal_writes_the_number(n: nat)
    ensures
        ({
            let s: Seq<char> = digits(n, 16);
            &&& s.len() > 0
            &&& forall|i: int|
                0 <= i < s.len() ==> '0' <= #[trigger] s[i] <= '9' || 'a' <= s[i] <= 'f'
            &&& s.len() > 1 ==> s[0] != '0'
            &&& hex_value(s) == n
            &&& n > 0 ==> s[0] != '0'
        }),
    decreases n,
{
    let s: Seq<char> = digits(n, 16);
    reveal_with_fuel(hex_value, 2);
    if n < 16 {
        assert(s =~= seq![digit_char(n)]);
        assert(s.drop_last() =~= Seq::<char>::empty());
    } else {
        hexadecimal_writes_the_number(n / 16);
        let front: Seq<char> = digits(n / 16, 16);
        assert(s.drop_last() =~= front);
        assert(s.last() == digit_char(n % 16));
        assert(s[0] == front[0]);
        assert forall|i: int| 0 <= i < s.len() implies '0' <= #[trigger] s[i] <= '9' || 'a' <= s[i]
            <= 'f' by {
            if i < front.len() {
                assert(s[i] == front[i]);
            }
        }
    }
}

/// Groups are written one after the other with a colon between two.
pub proof fn groups_are_joined_by_colons(groups: Seq<nat>, last: nat)
    ensures
        joined_groups(Seq::<nat>::empty()) == Seq::<char>::empty(),
        joined_groups(seq![last]) == digits(last, 16),
        groups.len() > 0 ==> joined_groups(groups.push(last)) == joined_groups(groups) + seq![':']
            + digits(last, 16),
{
    assert(groups.push(last).drop_last() =~= groups);
}

/// Whether `n` groups from index `at` on are all zero.
pub open spec fn zeros_at(groups: Seq<nat>, at: int, n: int) -> bool {
    0 <= at && 0 <= n && at + n <= groups.len() && forall|i: int|
        at <= i < at + n ==> #[trigger] groups[i] == 0
}

proof fn lemma_zero_run(groups: Seq<nat>, at: int, n: int)
    requires
        0 <= at <= groups.len(),
        0 <= n,
    ensures
        zeros_at(groups, at, n) <==> n <= zero_run(groups, at),
        zero_run(groups, at) >= 0,
    decreases groups.len() - at,
{
    if at < groups.len() && groups[at] == 0 {
        lemma_zero_run(
            groups,
            at + 1,
            if n > 0 {
                n - 1
            } else {
                0
            },
        );
        if n <= zero_run(groups, at) {
            assert forall|i: int| at <= i < at + n implies #[trigger] groups[i] == 0 by {
                if i > at {
                    assert(zeros_at(groups, at + 1, n - 1));
                }
            }
        }
    } else if zeros_at(groups, at, n) && n > 0 {
        assert(groups[at] == 0);
    }
}

proof fn lemma_a_longest_run_exists(groups: Seq<nat>, n: int) -> (at: int)
    requires
        0 < n <= groups.len(),
    ensures
        0 <= at < n,
        forall|j: int| 0 <= j < n ==> #[trigger] zero_run(groups, j) <= zero_run(groups, at),
        forall|j: int| 0 <= j < at ==> #[trigger] zero_run(groups, j) < zero_run(groups, at),
    decreases n,
{
    if n == 1 {
        0
    } else {
        let before: int = lemma_a_longest_run_exists(groups, n - 1);
        if zero_run(groups, n - 1) > zero_run(groups, before) {
            n - 1
        } else {
            before
        }
    }
}

/// An IPv6 address is written in its canonical form: its eight groups in order, where the longest run
/// of two or more zero groups, the first of them among equals, is written as two colons; an address
/// that maps an IPv4 address ends in that address.
pub proof fn ipv6_text_is_canonical(bytes: Seq<u8>)
    requires
        bytes.len() == 16,
    ensures
        ({
            let groups: Seq<nat> = Seq::new(8, |i: int| (bytes[2 * i] * 256 + bytes[2 * i + 1]) as nat);
            if zeros_at(groups, 0, 5) && groups[5] == 0xffff {
                ipv6_chars(bytes) == seq![':', ':', 'f', 'f', 'f', 'f', ':'] + ipv4_chars(
                    bytes[12],
                    bytes[13],
                    bytes[14],
                    bytes[15],
                )
            } else if exists|at: int| #[trigger] zeros_at(groups, at, 2) {
                exists|at: int, n: int|
                    {
                        &&& n >= 2 && #[trigger] zeros_at(groups, at, n)
                        &&& forall|j: int| 0 <= j < 8 ==> !#[trigger] zeros_at(groups, j, n + 1)
                        &&& forall|j: int| 0 <= j < at ==> !#[trigger] zeros_at(groups, j, n)
                        &&& ipv6_chars(bytes) == joined_groups(groups.take(at)) + seq![':', ':']
                            + joined_groups(groups.skip(at + n))
                    }
            } else {
                ipv6_chars(bytes) == joined_groups(groups)
            }
        }),
{
    let groups: Seq<nat> = Seq::new(8, |i: int| (bytes[2 * i] * 256 + bytes[2 * i + 1]) as nat);
    assert(groups =~= ipv6_groups(bytes));
    reveal_strlit("::ffff:");
    reveal_strlit("::");
    assert("::ffff:"@ =~= seq![':', ':', 'f', 'f', 'f', 'f', ':']);
    assert("::"@ =~= seq![':', ':']);
    assert(is_ipv4_mapped(bytes) <==> zeros_at(groups, 0, 5) && groups[5] == 0xffff) by {
        if is_ipv4_mapped(bytes) {
            assert forall|i: int| 0 <= i < 5 implies #[trigger] groups[i] == 0 by {
                assert(bytes[2 * i] == 0 && bytes[2 * i + 1] == 0);
            }
        }
        if zeros_at(groups, 0, 5) {
            assert(groups[0] == 0 && groups[1] == 0 && groups[2] == 0 && groups[3] == 0 && groups[4]
                == 0);
        }
    }
    let found: int = lemma_a_longest_run_exists(groups, 8);
    assert(is_longest_run(groups, found));
    let at: int = longest_run(groups);
    assert(is_longest_run(groups, at));
    let n: int = zero_run(groups, at);
    lemma_zero_run(groups, at, 0);
    assert(n >= 0) by {
        lemma_zero_run(groups, at, 0);
    }
    lemma_zero_run(groups, at, n);
    assert forall|j: int| 0 <= j < 8 implies !#[trigger] zeros_at(groups, j, n + 1) by {
        lemma_zero_run(groups, j, n + 1);
        assert(zero_run(groups, j) <= n);
    }
    assert forall|j: int| 0 <= j < at implies !#[trigger] zeros_at(groups, j, n) by {
        lemma_zero_run(groups, j, n);
        assert(zero_run(groups, j) < n);
    }
    if exists|p: int| #[trigger] zeros_at(groups, p, 2) {
        let p: int = choose|p: int| #[trigger] zeros_at(groups, p, 2);
        lemma_zero_run(groups, p, 2);
        assert(zero_run(groups, p) <= n);
    } else {
        lemma_zero_run(groups, at, 2);
    }
}

} // verus!
