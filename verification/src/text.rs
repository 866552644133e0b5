use vstd::prelude::*;
use vstd::string::StringSliceAdditionalSpecFns;
use vstd::utf8::encode_utf8_decode_utf8;
use crate::span::Span;

verus! {

/// Whether two texts hold the same characters.
pub fn same_text(a: &str, b: &str) -> (same: bool)
    ensures
        same == (a@ == b@),
{
    let x = a.as_bytes();
    let y = b.as_bytes();
    proof {
        encode_utf8_decode_utf8(a@);
        encode_utf8_decode_utf8(b@);
    }
    if x.len() != y.len() {
        return false;
    }
    let mut i: usize = 0;
    while i < x.len()
        invariant
            i <= x.len(),
            x.len() == y.len(),
            x@ == a.spec_bytes(),
            y@ == b.spec_bytes(),
            forall|k: int| 0 <= k < i ==> x@[k] == y@[k],
        decreases x.len() - i,
    {
        if x[i] != y[i] {
            return false;
        }
        i += 1;
    }
    assert(x@ =~= y@);
    true
}

/// Whether two byte strings hold the same bytes.
pub fn same_bytes(a: &[u8], b: &[u8]) -> (same: bool)
    ensures
        same == (a@ == b@),
{
    if a.len() != b.len() {
        return false;
    }
    let mut i: usize = 0;
    while i < a.len()
        invariant
            i <= a.len(),
            a.len() == b.len(),
            forall|k: int| 0 <= k < i ==> a@[k] == b@[k],
        decreases a.len() - i,
    {
        if a[i] != b[i] {
            return false;
        }
        i += 1;
    }
    assert(a@ =~= b@);
    true
}

/// The characters of a text, one by one.
pub fn chars_of(s: &str) -> (chars: Vec<char>)
    ensures
        chars@ == s@,
{
    let mut chars: Vec<char> = Vec::new();
    for c in it: s.chars()
        invariant
            chars@ == it.seq().take(it.index() as int),
            it.seq() == s@,
    {
        chars.push(c);
    }
    chars
}

/// Whether a character is one of the ten decimal digits.
pub open spec fn is_digit(c: char) -> bool {
    '0' <= c && c <= '9'
}

/// The number that a decimal digit stands for.
pub open spec fn digit_value(c: char) -> nat {
    (c as u32 - '0' as u32) as nat
}

/// Whether every character of a text is a decimal digit.
pub open spec fn all_digits(s: Seq<char>) -> bool {
    forall|i: int| 0 <= i < s.len() ==> is_digit(#[trigger] s[i])
}

/// The number that a run of decimal digits stands for, the empty run for zero.
pub open spec fn digits_value(s: Seq<char>) -> nat
    decreases s.len(),
{
    if s.len() == 0 {
        0
    } else {
        digits_value(s.drop_last()) * 10 + digit_value(s.last())
    }
}

/// Whether a text begins with a plus or minus sign.
pub open spec fn has_sign(s: Seq<char>) -> bool {
    s.len() > 0 && (s[0] == '-' || s[0] == '+')
}

/// The digits of a text once its sign, if it has one, is taken off.
pub open spec fn unsigned_part(s: Seq<char>) -> Seq<char> {
    if has_sign(s) {
        s.subrange(1, s.len() as int)
    } else {
        s
    }
}

/// The integer that a text denotes: an optional sign followed by at least one
/// decimal digit and nothing else. Any other text denotes no integer.
pub open spec fn integer_of(s: Seq<char>) -> Option<int> {
    let digits = unsigned_part(s);
    if digits.len() == 0 || !all_digits(digits) {
        None
    } else if s[0] == '-' {
        Some(-(digits_value(digits) as int))
    } else {
        Some(digits_value(digits) as int)
    }
}

/// The 64-bit integer that a text denotes, if it denotes one that fits.
pub open spec fn i64_of(s: Seq<char>) -> Option<i64> {
    match integer_of(s) {
        Some(v) => if i64::MIN <= v <= i64::MAX {
            Some(v as i64)
        } else {
            None
        },
        None => None,
    }
}

/// The 32-bit integer that a text denotes, if it denotes one that fits.
pub open spec fn i32_of(s: Seq<char>) -> Option<i32> {
    match integer_of(s) {
        Some(v) => if i32::MIN <= v <= i32::MAX {
            Some(v as i32)
        } else {
            None
        },
        None => None,
    }
}

/// A run of digits stands for at least as much as any of its prefixes.
pub proof fn lemma_digits_value_grows(s: Seq<char>, k: int)
    requires
        0 <= k <= s.len(),
    ensures
        digits_value(s.take(k)) <= digits_value(s),
    decreases s.len(),
{
    if k == s.len() {
        assert(s.take(k) =~= s);
    } else {
        lemma_digits_value_grows(s.drop_last(), k);
        assert(s.drop_last().take(k) =~= s.take(k));
    }
}

/// Appending one digit multiplies by ten and adds the digit.
pub proof fn lemma_digits_value_push(s: Seq<char>, c: char)
    ensures
        digits_value(s.push(c)) == digits_value(s) * 10 + digit_value(c),
{
    assert(s.push(c).drop_last() =~= s);
}

/// Reads a 64-bit integer written in decimal.
#[verifier::loop_isolation(false)]
pub fn parse_i64(chars: &[char]) -> (value: Option<i64>)
    ensures
        value == i64_of(chars@),
{
    let n = chars.len();
    if n == 0 {
        return None;
    }
    let negative = chars[0] == '-';
    let start: usize = if negative || chars[0] == '+' {
        1
    } else {
        0
    };
    if start == n {
        return None;
    }
    let limit: u128 = if negative {
        0x8000_0000_0000_0000
    } else {
        0x7fff_ffff_ffff_ffff
    };
    let ghost digits = chars@.subrange(start as int, n as int);
    assert(digits =~= unsigned_part(chars@));
    let mut acc: u128 = 0;
    let mut i: usize = start;
    assert(chars@.subrange(start as int, i as int) =~= Seq::<char>::empty());
    while i < n
        invariant
            start <= i <= n,
            n == chars.len(),
            forall|k: int| start <= k < i ==> is_digit(#[trigger] chars@[k]),
            acc == digits_value(chars@.subrange(start as int, i as int)),
            acc <= limit,
        decreases n - i,
    {
        let c = chars[i];
        if !(c >= '0' && c <= '9') {
            proof {
                assert(!is_digit(digits[i - start]));
            }
            return None;
        }
        let d: u128 = (c as u32 - '0' as u32) as u128;
        let next: u128 = acc * 10 + d;
        proof {
            let shorter = chars@.subrange(start as int, i as int);
            lemma_digits_value_push(shorter, c);
            assert(shorter.push(c) =~= chars@.subrange(start as int, i + 1));
        }
        if next > limit {
            proof {
                lemma_digits_value_grows(digits, i + 1 - start);
                assert(digits.take(i + 1 - start) =~= chars@.subrange(start as int, i + 1));
            }
            return None;
        }
        acc = next;
        i += 1;
    }
    assert(all_digits(digits));
    if negative {
        if acc == 0x8000_0000_0000_0000 {
            Some(i64::MIN)
        } else {
            Some(-(acc as i64))
        }
    } else {
        Some(acc as i64)
    }
}

/// Reads a 32-bit integer written in decimal.
pub fn parse_i32(chars: &[char]) -> (value: Option<i32>)
    ensures
        value == i32_of(chars@),
{
    match parse_i64(chars) {
        Some(v) => if v >= i32::MIN as i64 && v <= i32::MAX as i64 {
            Some(v as i32)
        } else {
            None
        },
        None => None,
    }
}

/// The position of the first `d` in `s`, or the length of `s` where it holds none.
pub open spec fn position(s: Seq<char>, d: char) -> int
    decreases s.len(),
{
    if s.len() == 0 || s[0] == d {
        0
    } else {
        1 + position(s.drop_first(), d)
    }
}

/// The pieces into which the delimiter `d` cuts `s`, at most `n` of them: the
/// last piece holds whatever is left, delimiters included.
pub open spec fn split_at_most(s: Seq<char>, d: char, n: nat) -> Seq<Seq<char>>
    decreases n,
{
    if n == 0 {
        Seq::empty()
    } else {
        let at = position(s, d);
        if n == 1 || at < 0 || at >= s.len() {
            seq![s]
        } else {
            seq![s.take(at)] + split_at_most(s.skip(at + 1), d, (n - 1) as nat)
        }
    }
}

/// The pieces into which the delimiter `d` cuts `s`. A text without the
/// delimiter, the empty text too, is one piece.
pub open spec fn split(s: Seq<char>, d: char) -> Seq<Seq<char>> {
    split_at_most(s, d, s.len() + 1)
}

/// `position` finds the first delimiter and nothing before it.
pub proof fn lemma_position(s: Seq<char>, d: char)
    ensures
        0 <= position(s, d) <= s.len(),
        forall|k: int| 0 <= k < position(s, d) ==> s[k] != d,
        position(s, d) < s.len() ==> s[position(s, d)] == d,
    decreases s.len(),
{
    if s.len() == 0 || s[0] == d {
    } else {
        let rest = s.drop_first();
        lemma_position(rest, d);
        assert forall|k: int| 0 <= k < position(s, d) implies s[k] != d by {
            if k > 0 {
                assert(s[k] == rest[k - 1]);
            }
        }
    }
}

/// A position before which no delimiter stands, and which holds one or is
/// the end, is the one that `position` finds.
pub proof fn lemma_position_is(s: Seq<char>, d: char, at: int)
    requires
        0 <= at <= s.len(),
        forall|k: int| 0 <= k < at ==> s[k] != d,
        at < s.len() ==> s[at] == d,
    ensures
        position(s, d) == at,
    decreases s.len(),
{
    if s.len() == 0 || s[0] == d {
    } else {
        let rest = s.drop_first();
        assert forall|k: int| 0 <= k < at - 1 implies rest[k] != d by {
            assert(rest[k] == s[k + 1]);
        }
        lemma_position_is(rest, d, at - 1);
    }
}

/// With room for more pieces than the text has characters, the limit cuts nothing off.
pub proof fn lemma_split_room(s: Seq<char>, d: char, n: nat)
    requires
        n > s.len(),
    ensures
        split_at_most(s, d, n) == split(s, d),
    decreases s.len(),
{
    let at = position(s, d);
    lemma_position(s, d);
    if at < s.len() {
        let rest = s.skip(at + 1);
        lemma_split_room(rest, d, (n - 1) as nat);
        lemma_split_room(rest, d, s.len() as nat);
    }
}

/// Where the first `d` stands in `chars` at or after `from`, or the length of
/// `chars` where there is none.
pub fn find(chars: &[char], d: char, from: usize) -> (at: usize)
    requires
        from <= chars.len(),
    ensures
        from <= at <= chars.len(),
        at == from + position(chars@.skip(from as int), d),
{
    let mut at: usize = from;
    while at < chars.len() && chars[at] != d
        invariant
            from <= at <= chars.len(),
            forall|k: int| from <= k < at ==> chars@[k] != d,
        decreases chars.len() - at,
    {
        at += 1;
    }
    proof {
        lemma_position_is(chars@.skip(from as int), d, at - from);
    }
    at
}

/// The texts that a list of spans covers.
pub open spec fn spans_of(spans: Seq<Span>, s: Seq<char>) -> Seq<Seq<char>> {
    Seq::new(spans.len(), |i: int| spans[i].of(s))
}

/// Cuts `chars` at each `d`, into at most `limit` pieces where a limit is given.
pub fn split_spans(chars: &[char], d: char, limit: Option<usize>) -> (spans: Vec<Span>)
    ensures
        forall|i: int| 0 <= i < spans@.len() ==> (#[trigger] spans@[i]).fits(chars@.len()),
        spans_of(spans@, chars@) == match limit {
            Some(n) => split_at_most(chars@, d, n as nat),
            None => split(chars@, d),
        },
{
    let mut spans: Vec<Span> = Vec::new();
    let ghost s = chars@;
    let ghost goal = match limit {
        Some(n) => split_at_most(s, d, n as nat),
        None => split(s, d),
    };
    let ghost mut room: nat = match limit {
        Some(n) => n as nat,
        None => s.len() + 1,
    };
    if let Some(n) = limit {
        if n == 0 {
            assert(spans_of(spans@, s) =~= goal);
            return spans;
        }
    }
    let mut start: usize = 0;
    assert(s.skip(0) =~= s);
    loop
        invariant_except_break
            s == chars@,
            start <= chars.len(),
            room >= 1,
            limit is Some ==> room + spans@.len() == limit.unwrap(),
            limit is None ==> room > s.len() - start,
            forall|i: int| 0 <= i < spans@.len() ==> (#[trigger] spans@[i]).fits(s.len()),
            goal == spans_of(spans@, s) + split_at_most(s.skip(start as int), d, room),
        ensures
            s == chars@,
            forall|i: int| 0 <= i < spans@.len() ==> (#[trigger] spans@[i]).fits(s.len()),
            goal == spans_of(spans@, s),
        decreases chars.len() - start,
    {
        let at = find(chars, d, start);
        let last = at == chars.len() || match limit {
            Some(n) => spans.len() + 1 >= n,
            None => false,
        };
        let ghost rest = s.skip(start as int);
        let ghost before = spans_of(spans@, s);
        if last {
            spans.push(Span { start, end: chars.len() });
            proof {
                assert(rest =~= s.subrange(start as int, s.len() as int));
                assert(split_at_most(rest, d, room) =~= seq![rest]);
                assert(spans_of(spans@, s) =~= before + seq![rest]);
            }
            break;
        }
        spans.push(Span { start, end: at });
        proof {
            assert(rest.take(at - start) =~= s.subrange(start as int, at as int));
            assert(rest.skip(at - start + 1) =~= s.skip(at + 1));
            assert(spans_of(spans@, s) =~= before + seq![rest.take(at - start)]);
            room = (room - 1) as nat;
        }
        start = at + 1;
    }
    spans
}

/// How many decimal digits stand at the front of `s`.
pub open spec fn leading_digits(s: Seq<char>) -> int
    decreases s.len(),
{
    if s.len() == 0 || !is_digit(s[0]) {
        0
    } else {
        1 + leading_digits(s.drop_first())
    }
}

/// The lower-case form of an ASCII letter; any other character unchanged.
pub open spec fn lowered(c: char) -> char {
    if 'A' <= c && c <= 'Z' {
        ((c as u8 + 32) as u8) as char
    } else {
        c
    }
}

/// Whether `s`, letter case aside, reads as the given lower-case word.
pub open spec fn reads_as(s: Seq<char>, word: Seq<char>) -> bool {
    s.len() == word.len() && forall|i: int| 0 <= i < s.len() ==> lowered(#[trigger] s[i]) == word[i]
}

/// Whether `s` names an infinity or a not-a-number, letter case aside.
pub open spec fn is_special_number(s: Seq<char>) -> bool {
    reads_as(s, seq!['i', 'n', 'f']) || reads_as(s, seq!['n', 'a', 'n']) || reads_as(
        s,
        seq!['i', 'n', 'f', 'i', 'n', 'i', 't', 'y'],
    )
}

/// Whether `s` is an exponent: the letter `e` in either case, an optional
/// sign, and at least one digit.
pub open spec fn is_exponent(s: Seq<char>) -> bool {
    &&& s.len() > 0
    &&& (s[0] == 'e' || s[0] == 'E')
    &&& unsigned_part(s.skip(1)).len() > 0
    &&& all_digits(unsigned_part(s.skip(1)))
}

/// Whether `s` is an unsigned decimal number: digits, optionally a point and
/// more digits, with at least one digit on either side of the point, and
/// optionally an exponent.
pub open spec fn is_unsigned_number(s: Seq<char>) -> bool {
    let whole = leading_digits(s);
    let pointed = whole < s.len() && s[whole] == '.';
    let fraction = if pointed {
        leading_digits(s.skip(whole + 1))
    } else {
        0
    };
    let tail = if pointed {
        s.skip(whole + 1 + fraction)
    } else {
        s.skip(whole)
    };
    whole + fraction > 0 && (tail.len() == 0 || is_exponent(tail))
}

/// Whether a text is a decimal number as a coordinate may be written: an
/// optional sign, then a number with an optional fraction and exponent, or the
/// name of an infinity or of a not-a-number.
pub open spec fn is_decimal(s: Seq<char>) -> bool {
    is_special_number(unsigned_part(s)) || is_unsigned_number(unsigned_part(s))
}

/// The leading digits of a text are digits, and what follows them is none.
pub proof fn lemma_leading_digits(s: Seq<char>)
    ensures
        0 <= leading_digits(s) <= s.len(),
        forall|k: int| 0 <= k < leading_digits(s) ==> is_digit(#[trigger] s[k]),
        leading_digits(s) < s.len() ==> !is_digit(s[leading_digits(s)]),
    decreases s.len(),
{
    if s.len() == 0 || !is_digit(s[0]) {
    } else {
        let rest = s.drop_first();
        lemma_leading_digits(rest);
        assert forall|k: int| 0 <= k < leading_digits(s) implies is_digit(#[trigger] s[k]) by {
            if k > 0 {
                assert(s[k] == rest[k - 1]);
            }
        }
    }
}

/// A run of digits that ends at a character that is none, or at the end, is
/// the run of leading digits.
pub proof fn lemma_leading_digits_is(s: Seq<char>, n: int)
    requires
        0 <= n <= s.len(),
        forall|k: int| 0 <= k < n ==> is_digit(#[trigger] s[k]),
        n < s.len() ==> !is_digit(s[n]),
    ensures
        leading_digits(s) == n,
    decreases s.len(),
{
    if s.len() == 0 || !is_digit(s[0]) {
    } else {
        let rest = s.drop_first();
        assert forall|k: int| 0 <= k < n - 1 implies is_digit(#[trigger] rest[k]) by {
            assert(rest[k] == s[k + 1]);
        }
        lemma_leading_digits_is(rest, n - 1);
    }
}

/// Where the run of digits that starts at `from` ends.
pub fn skip_digits(chars: &[char], from: usize) -> (to: usize)
    requires
        from <= chars.len(),
    ensures
        from <= to <= chars.len(),
        to == from + leading_digits(chars@.skip(from as int)),
{
    let mut to: usize = from;
    while to < chars.len() && chars[to] >= '0' && chars[to] <= '9'
        invariant
            from <= to <= chars.len(),
            forall|k: int| from <= k < to ==> is_digit(#[trigger] chars@[k]),
        decreases chars.len() - to,
    {
        to += 1;
    }
    proof {
        lemma_leading_digits_is(chars@.skip(from as int), to - from);
    }
    to
}

/// The lower-case form of an ASCII letter; any other character unchanged.
pub fn lower(c: char) -> (l: char)
    ensures
        l == lowered(c),
{
    if c >= 'A' && c <= 'Z' {
        ((c as u8) + 32) as char
    } else {
        c
    }
}

/// Whether the characters from `from` on read, letter case aside, as `word`.
pub fn tail_reads_as(chars: &[char], from: usize, word: &[char]) -> (same: bool)
    requires
        from <= chars.len(),
    ensures
        same == reads_as(chars@.skip(from as int), word@),
{
    if chars.len() - from != word.len() {
        return false;
    }
    let ghost s = chars@.skip(from as int);
    let mut i: usize = 0;
    while i < word.len()
        invariant
            i <= word.len(),
            from <= chars.len(),
            chars.len() - from == word.len(),
            s == chars@.skip(from as int),
            forall|k: int| 0 <= k < i ==> lowered(#[trigger] s[k]) == word@[k],
        decreases word.len() - i,
    {
        if lower(chars[from + i]) != word[i] {
            assert(lowered(s[i as int]) != word@[i as int]);
            return false;
        }
        i += 1;
    }
    true
}

/// Whether the characters from `from` on name an infinity or a not-a-number.
pub fn tail_is_special_number(chars: &[char], from: usize) -> (yes: bool)
    requires
        from <= chars.len(),
    ensures
        yes == is_special_number(chars@.skip(from as int)),
{
    let inf = ['i', 'n', 'f'];
    let nan = ['n', 'a', 'n'];
    let infinity = ['i', 'n', 'f', 'i', 'n', 'i', 't', 'y'];
    assert(inf@ =~= seq!['i', 'n', 'f']);
    assert(nan@ =~= seq!['n', 'a', 'n']);
    assert(infinity@ =~= seq!['i', 'n', 'f', 'i', 'n', 'i', 't', 'y']);
    tail_reads_as(chars, from, &inf) || tail_reads_as(chars, from, &nan) || tail_reads_as(
        chars,
        from,
        &infinity,
    )
}

/// Whether the characters from `from` on are an exponent.
pub fn tail_is_exponent(chars: &[char], from: usize) -> (yes: bool)
    requires
        from <= chars.len(),
    ensures
        yes == is_exponent(chars@.skip(from as int)),
{
    let n = chars.len();
    let ghost tail = chars@.skip(from as int);
    if from == n || !(chars[from] == 'e' || chars[from] == 'E') {
        return false;
    }
    let signed = from + 1 < n && (chars[from + 1] == '-' || chars[from + 1] == '+');
    let digits_start: usize = if signed {
        from + 2
    } else {
        from + 1
    };
    let digits_end = skip_digits(chars, digits_start);
    proof {
        let exponent = tail.skip(1);
        assert(exponent =~= chars@.skip(from + 1));
        assert(signed == has_sign(exponent));
        let digits = unsigned_part(exponent);
        assert(digits =~= chars@.skip(digits_start as int));
        lemma_leading_digits(digits);
        if digits_end == n {
            assert(all_digits(digits));
        } else {
            assert(!is_digit(digits[digits_end - digits_start]));
        }
    }
    digits_start < n && digits_end == n
}

/// Whether the characters from `from` on are an unsigned decimal number.
pub fn tail_is_unsigned_number(chars: &[char], from: usize) -> (yes: bool)
    requires
        from <= chars.len(),
    ensures
        yes == is_unsigned_number(chars@.skip(from as int)),
{
    let n = chars.len();
    let ghost body = chars@.skip(from as int);
    let whole_end = skip_digits(chars, from);
    let pointed = whole_end < n && chars[whole_end] == '.';
    let tail_start = if pointed {
        skip_digits(chars, whole_end + 1)
    } else {
        whole_end
    };
    let digits: usize = if pointed {
        tail_start - from - 1
    } else {
        tail_start - from
    };
    proof {
        let whole = leading_digits(body);
        if pointed {
            assert(body.skip(whole + 1) =~= chars@.skip(whole_end + 1));
            assert(body.skip(whole + 1 + (tail_start - whole_end - 1)) =~= chars@.skip(
                tail_start as int,
            ));
        } else {
            assert(body.skip(whole) =~= chars@.skip(tail_start as int));
        }
    }
    digits > 0 && (tail_start == n || tail_is_exponent(chars, tail_start))
}

/// Whether a text is a decimal number as a coordinate may be written.
pub fn is_decimal_text(chars: &[char]) -> (yes: bool)
    ensures
        yes == is_decimal(chars@),
{
    let n = chars.len();
    let start: usize = if n > 0 && (chars[0] == '-' || chars[0] == '+') {
        1
    } else {
        0
    };
    assert(chars@.skip(start as int) =~= unsigned_part(chars@));
    tail_is_special_number(chars, start) || tail_is_unsigned_number(chars, start)
}

} // verus!
