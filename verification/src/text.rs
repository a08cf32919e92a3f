//! Text as sequences of characters: finding, splitting, trimming and
//! comparing, and numbers in decimal.

use vstd::prelude::*;
use vstd::slice::slice_subrange;

verus! {

/// `String::push` appends one character to the string.
pub assume_specification[ String::push ](string: &mut String, c: char)
    ensures
        final(string)@ == old(string)@.push(c),
;

// ---------------------------------------------------------------- views

/// What each of `strings` spells.
pub open spec fn spellings(strings: Seq<String>) -> Seq<Seq<char>> {
    strings.map_values(|s: String| s@)
}

/// What each of `parts` spells.
pub open spec fn parts_view(parts: Seq<&[char]>) -> Seq<Seq<char>> {
    parts.map_values(|p: &[char]| p@)
}

/// The characters of `text`, one by one.
pub fn chars_of(text: &str) -> (chars: Vec<char>)
    ensures
        chars@ == text@,
{
    let mut chars: Vec<char> = Vec::new();
    for c in iter: text.chars()
        invariant
            chars@ == iter.seq().take(iter.index()),
            iter.seq() == text@,
    {
        chars.push(c);
    }
    chars
}

/// The text that `chars` spell.
pub fn spelled(chars: &[char]) -> (text: String)
    ensures
        text@ == chars@,
{
    let mut text = String::new();
    let mut at: usize = 0;
    while at < chars.len()
        invariant
            at <= chars.len(),
            text@ == chars@.take(at as int),
        decreases chars.len() - at,
    {
        text.push(chars[at]);
        at += 1;
    }
    assert(chars@.take(at as int) == chars@);
    text
}

/// Copies of `strings`, in order.
pub fn copies(strings: &Vec<String>) -> (copied: Vec<String>)
    ensures
        spellings(copied@) == spellings(strings@),
{
    let mut copied: Vec<String> = Vec::new();
    for at in 0..strings.len()
        invariant
            spellings(copied@) == spellings(strings@).take(at as int),
    {
        let ghost before = spellings(copied@);
        copied.push(strings[at].clone());
        assert(spellings(copied@) =~= before.push(strings@[at as int]@));
        assert(spellings(copied@) =~= spellings(strings@).take(at + 1));
    }
    assert(spellings(strings@).take(strings.len() as int) =~= spellings(strings@));
    copied
}

// ------------------------------------------------- beginnings and endings

/// Whether `s` begins with `prefix`.
pub open spec fn starts(s: Seq<char>, prefix: Seq<char>) -> bool {
    prefix.len() <= s.len() && s.take(prefix.len() as int) == prefix
}

/// Whether `s` ends with `suffix`.
pub open spec fn ends(s: Seq<char>, suffix: Seq<char>) -> bool {
    suffix.len() <= s.len() && s.skip(s.len() - suffix.len()) == suffix
}

/// Whether `a` and `b` hold the same characters.
pub fn same(a: &[char], b: &[char]) -> (r: bool)
    ensures
        r == (a@ == b@),
{
    if a.len() != b.len() {
        return false;
    }
    for at in 0..a.len()
        invariant
            a.len() == b.len(),
            forall|i: int| 0 <= i < at ==> a@[i] == b@[i],
    {
        if a[at] != b[at] {
            return false;
        }
    }
    assert(a@ =~= b@);
    true
}

/// What follows `prefix` in `s`, where `s` begins with it.
pub fn after_prefix<'a>(s: &'a [char], prefix: &str) -> (rest: Option<&'a [char]>)
    ensures
        rest is Some <==> starts(s@, prefix@),
        rest matches Some(r) ==> r@ == s@.skip(prefix@.len() as int),
{
    let prefix = chars_of(prefix);
    if prefix.len() <= s.len() && same(
        slice_subrange(s, 0, prefix.len()),
        prefix.as_slice(),
    ) {
        Some(slice_subrange(s, prefix.len(), s.len()))
    } else {
        None
    }
}

/// What precedes `suffix` in `s`, where `s` ends with it.
pub fn before_suffix<'a>(s: &'a [char], suffix: &str) -> (rest: Option<&'a [char]>)
    ensures
        rest is Some <==> ends(s@, suffix@),
        rest matches Some(r) ==> r@ == s@.take(s@.len() - suffix@.len()),
{
    let suffix = chars_of(suffix);
    if suffix.len() <= s.len() && same(
        slice_subrange(s, s.len() - suffix.len(), s.len()),
        suffix.as_slice(),
    ) {
        Some(slice_subrange(s, 0, s.len() - suffix.len()))
    } else {
        None
    }
}

/// `s` without the dots it ends in.
pub open spec fn undotted(s: Seq<char>) -> Seq<char>
    decreases s.len(),
{
    if s.len() > 0 && s.last() == '.' {
        undotted(s.drop_last())
    } else {
        s
    }
}

/// `s` without the dots it ends in.
pub fn without_dots<'a>(s: &'a [char]) -> (rest: &'a [char])
    ensures
        rest@ == undotted(s@),
{
    let mut end: usize = s.len();
    assert(s@.take(end as int) =~= s@);
    while end > 0 && s[end - 1] == '.'
        invariant
            end <= s.len(),
            undotted(s@.take(end as int)) == undotted(s@),
        decreases end,
    {
        assert(s@.take(end as int).drop_last() =~= s@.take(end - 1));
        end -= 1;
    }
    slice_subrange(s, 0, end)
}

/// `s` without its last dots is a beginning of `s` that ends in no dot, and
/// is empty only where `s` is dots alone.
pub proof fn lemma_undotted(s: Seq<char>)
    ensures
        undotted(s).len() <= s.len(),
        undotted(s) == s.take(undotted(s).len() as int),
        undotted(s).len() > 0 ==> undotted(s).last() != '.',
        s.len() > 0 && s[0] != '.' ==> undotted(s).len() > 0,
    decreases s.len(),
{
    if s.len() > 0 && s.last() == '.' {
        lemma_undotted(s.drop_last());
        let rest = undotted(s.drop_last());
        assert(s.drop_last().take(rest.len() as int) =~= s.take(rest.len() as int));
        if s[0] != '.' {
            assert(s.drop_last()[0] == s[0]);
        }
    } else {
        assert(s.take(s.len() as int) =~= s);
    }
}

/// What ends in no dot keeps all of itself, and loses one dot put after it.
pub proof fn lemma_undotted_stays(s: Seq<char>)
    requires
        s.len() > 0 ==> s.last() != '.',
    ensures
        undotted(s) == s,
        undotted(s.push('.')) == s,
{
    assert(s.push('.').drop_last() =~= s);
}

// ------------------------------------------------------------- splitting

/// Where `c` first stands in `s`, or the length of `s` where it does not.
pub open spec fn first_at(s: Seq<char>, c: char) -> nat
    decreases s.len(),
{
    if s.len() == 0 || s[0] == c {
        0
    } else {
        1 + first_at(s.skip(1), c)
    }
}

/// [`first_at`] is the one place at which `c` stands with none before it, or
/// the length where there is no such place.
pub proof fn lemma_first_at(s: Seq<char>, c: char)
    ensures
        0 <= first_at(s, c) <= s.len(),
        first_at(s, c) < s.len() ==> s[first_at(s, c) as int] == c,
        forall|i: int| 0 <= i < first_at(s, c) ==> s[i] != c,
    decreases s.len(),
{
    if s.len() != 0 && s[0] != c {
        lemma_first_at(s.skip(1), c);
        assert forall|i: int| 0 <= i < first_at(s, c) implies s[i] != c by {
            if i > 0 {
                assert(s[i] == s.skip(1)[i - 1]);
            }
        }
    }
}

/// A place with `c` on it, or the end, and no `c` before it is [`first_at`].
pub proof fn lemma_first_at_is(s: Seq<char>, c: char, at: int)
    requires
        0 <= at <= s.len(),
        at < s.len() ==> s[at] == c,
        forall|i: int| 0 <= i < at ==> s[i] != c,
    ensures
        first_at(s, c) == at,
{
    lemma_first_at(s, c);
    if first_at(s, c) < at {
        assert(s[first_at(s, c) as int] != c);
    } else if at < first_at(s, c) {
        assert(s[at] != c);
    }
}

/// What `c` parts, where none stands before it.
pub proof fn lemma_parted(before: Seq<char>, c: char, after: Seq<char>)
    requires
        !before.contains(c),
    ensures
        first_at(before.push(c) + after, c) == before.len(),
        (before.push(c) + after).take(before.len() as int) == before,
        (before.push(c) + after).skip(before.len() as int + 1) == after,
{
    let s = before.push(c) + after;
    assert forall|i: int| 0 <= i < before.len() implies s[i] != c by {
        assert(s[i] == before[i]);
        assert(before.contains(before[i]));
    }
    lemma_first_at_is(s, c, before.len() as int);
    assert(s.take(before.len() as int) =~= before);
    assert(s.skip(before.len() as int + 1) =~= after);
}

/// Where `c` first stands in `s`, or the length of `s` where it does not.
pub fn find(s: &[char], c: char) -> (at: usize)
    ensures
        at == first_at(s@, c),
{
    let mut at: usize = 0;
    while at < s.len() && s[at] != c
        invariant
            at <= s.len(),
            forall|i: int| 0 <= i < at ==> s@[i] != c,
        decreases s.len() - at,
    {
        at += 1;
    }
    proof {
        lemma_first_at_is(s@, c, at as int);
    }
    at
}

/// The stretches of `s` between the `c`s in it.
pub open spec fn split(s: Seq<char>, c: char) -> Seq<Seq<char>>
    decreases s.len(),
{
    let at = first_at(s, c) as int;
    if at >= s.len() {
        seq![s]
    } else {
        seq![s.take(at)] + split(s.skip(at + 1), c)
    }
}

/// What `c` parts first is the first stretch; what holds no `c` is one.
pub proof fn lemma_split(before: Seq<char>, c: char, after: Seq<char>)
    requires
        !before.contains(c),
    ensures
        split(before, c) == seq![before],
        split(before.push(c) + after, c) == seq![before] + split(after, c),
{
    lemma_parted(before, c, after);
    lemma_first_at(before, c);
    if first_at(before, c) < before.len() {
        assert(before.contains(before[first_at(before, c) as int]));
    }
}

/// Two stretches that hold no `c` hold none with another character between
/// them.
pub proof fn lemma_holds_no(a: Seq<char>, between: char, b: Seq<char>, c: char)
    requires
        !a.contains(c),
        !b.contains(c),
        between != c,
    ensures
        !(a.push(between) + b).contains(c),
{
    let s = a.push(between) + b;
    if s.contains(c) {
        let i = choose|i: int| 0 <= i < s.len() && s[i] == c;
        if i < a.len() {
            assert(a[i] == c);
        } else if i > a.len() {
            assert(b[i - a.len() - 1] == c);
        }
    }
}

/// The stretches of `s` between the `c`s in it.
pub fn pieces<'a>(s: &'a [char], c: char) -> (parts: Vec<&'a [char]>)
    ensures
        parts_view(parts@) == split(s@, c),
{
    let mut parts: Vec<&'a [char]> = Vec::new();
    let mut rest: &'a [char] = s;
    let mut at: usize = find(rest, c);
    proof {
        lemma_first_at(rest@, c);
    }
    assert(parts_view(parts@) + split(rest@, c) =~= split(s@, c));
    while at < rest.len()
        invariant
            at == first_at(rest@, c),
            parts_view(parts@) + split(rest@, c) == split(s@, c),
        decreases rest.len(),
    {
        let ghost before = parts_view(parts@);
        let part = slice_subrange(rest, 0, at);
        parts.push(part);
        assert(parts_view(parts@) =~= before.push(part@));
        let ghost longer = rest@;
        rest = slice_subrange(rest, at + 1, rest.len());
        assert(rest@ =~= longer.skip(at + 1));
        assert(part@ =~= longer.take(at as int));
        assert(parts_view(parts@) + split(rest@, c) =~= before + (seq![part@] + split(rest@, c)));
        at = find(rest, c);
    }
    let ghost before = parts_view(parts@);
    parts.push(rest);
    proof {
        lemma_first_at(rest@, c);
    }
    assert(parts_view(parts@) =~= before + split(rest@, c));
    parts
}

/// A line without the carriage return that ended it.
pub open spec fn uncarried(s: Seq<char>) -> Seq<char> {
    if s.len() > 0 && s.last() == '\r' {
        s.drop_last()
    } else {
        s
    }
}

/// The lines of `s`: a line ends at a line feed, which with a carriage return
/// before it is no part of the line; the last line may end with `s` instead.
pub open spec fn lines(s: Seq<char>) -> Seq<Seq<char>>
    decreases s.len(),
{
    let at = first_at(s, '\n') as int;
    if s.len() == 0 {
        seq![]
    } else if at >= s.len() {
        seq![s]
    } else {
        seq![uncarried(s.take(at))] + lines(s.skip(at + 1))
    }
}

/// The lines of `s`.
pub fn lines_of<'a>(s: &'a [char]) -> (parts: Vec<&'a [char]>)
    ensures
        parts_view(parts@) == lines(s@),
{
    let mut parts: Vec<&'a [char]> = Vec::new();
    let mut rest: &'a [char] = s;
    assert(parts_view(parts@) + lines(rest@) =~= lines(s@));
    while rest.len() > 0
        invariant
            parts_view(parts@) + lines(rest@) == lines(s@),
        decreases rest.len(),
    {
        let at = find(rest, '\n');
        let ghost before = parts_view(parts@);
        let ghost longer = rest@;
        proof {
            lemma_first_at(longer, '\n');
        }
        if at >= rest.len() {
            parts.push(rest);
            rest = slice_subrange(rest, rest.len(), rest.len());
            assert(parts_view(parts@) =~= before.push(longer));
            assert(lines(rest@) =~= seq![]);
            assert(parts_view(parts@) + lines(rest@) =~= before + lines(longer));
        } else {
            let end: usize = if at > 0 && rest[at - 1] == '\r' {
                at - 1
            } else {
                at
            };
            let part = slice_subrange(rest, 0, end);
            parts.push(part);
            rest = slice_subrange(rest, at + 1, rest.len());
            assert(rest@ =~= longer.skip(at + 1));
            assert(part@ =~= uncarried(longer.take(at as int)));
            assert(parts_view(parts@) =~= before.push(part@));
            assert(parts_view(parts@) + lines(rest@) =~= before + (seq![part@] + lines(rest@)));
        }
    }
    assert(parts_view(parts@) + lines(rest@) =~= parts_view(parts@));
    parts
}

// ------------------------------------------------------------ whitespace

/// Whether `c` has Unicode's White_Space property.
pub open spec fn white_space(c: char) -> bool {
    ||| '\t' <= c <= '\r'
    ||| c == ' '
    ||| c == '\u{85}'
    ||| c == '\u{A0}'
    ||| c == '\u{1680}'
    ||| '\u{2000}' <= c <= '\u{200A}'
    ||| c == '\u{2028}'
    ||| c == '\u{2029}'
    ||| c == '\u{202F}'
    ||| c == '\u{205F}'
    ||| c == '\u{3000}'
}

/// Whether `c` has Unicode's White_Space property.
pub fn is_white_space(c: char) -> (r: bool)
    ensures
        r == white_space(c),
{
    ('\t' <= c && c <= '\r') || c == ' ' || c == '\u{85}' || c == '\u{A0}' || c == '\u{1680}' || (
    '\u{2000}' <= c && c <= '\u{200A}') || c == '\u{2028}' || c == '\u{2029}' || c == '\u{202F}'
        || c == '\u{205F}' || c == '\u{3000}'
}

/// `s` without the whitespace it begins with.
pub open spec fn trimmed_start(s: Seq<char>) -> Seq<char>
    decreases s.len(),
{
    if s.len() > 0 && white_space(s[0]) {
        trimmed_start(s.skip(1))
    } else {
        s
    }
}

/// `s` without the whitespace it ends in.
pub open spec fn trimmed_end(s: Seq<char>) -> Seq<char>
    decreases s.len(),
{
    if s.len() > 0 && white_space(s.last()) {
        trimmed_end(s.drop_last())
    } else {
        s
    }
}

/// `s` without the whitespace around it.
pub open spec fn trimmed(s: Seq<char>) -> Seq<char> {
    trimmed_end(trimmed_start(s))
}

/// `s` without the whitespace around it.
pub fn trim<'a>(s: &'a [char]) -> (rest: &'a [char])
    ensures
        rest@ == trimmed(s@),
{
    let mut start: usize = 0;
    assert(s@.skip(0) =~= s@);
    while start < s.len() && is_white_space(s[start])
        invariant
            start <= s.len(),
            trimmed_start(s@.skip(start as int)) == trimmed_start(s@),
        decreases s.len() - start,
    {
        assert(s@.skip(start as int).skip(1) =~= s@.skip(start + 1));
        start += 1;
    }
    let s = slice_subrange(s, start, s.len());
    let mut end: usize = s.len();
    assert(s@.take(end as int) =~= s@);
    while end > 0 && is_white_space(s[end - 1])
        invariant
            end <= s.len(),
            trimmed_end(s@.take(end as int)) == trimmed_end(s@),
        decreases end,
    {
        assert(s@.take(end as int).drop_last() =~= s@.take(end - 1));
        end -= 1;
    }
    slice_subrange(s, 0, end)
}

// ------------------------------------------------------------------ case

/// `c`, in lower case where it is an ASCII letter.
pub open spec fn lower(c: char) -> char {
    if 'A' <= c <= 'Z' {
        (c as u8 + 32) as char
    } else {
        c
    }
}

/// `s` with its ASCII letters in lower case.
pub open spec fn lowered(s: Seq<char>) -> Seq<char> {
    s.map_values(|c: char| lower(c))
}

/// `c`, in lower case where it is an ASCII letter.
pub fn to_lower(c: char) -> (r: char)
    ensures
        r == lower(c),
{
    if 'A' <= c && c <= 'Z' {
        (c as u8 + 32) as char
    } else {
        c
    }
}

/// `s` with its ASCII letters in lower case.
pub fn to_lowered(s: &[char]) -> (r: Vec<char>)
    ensures
        r@ == lowered(s@),
{
    let mut r: Vec<char> = Vec::new();
    for at in 0..s.len()
        invariant
            r@ == lowered(s@).take(at as int),
    {
        r.push(to_lower(s[at]));
    }
    assert(lowered(s@).take(s.len() as int) =~= lowered(s@));
    r
}

/// Whether `a` and `b` are the same but for the case of ASCII letters.
pub open spec fn same_name(a: Seq<char>, b: Seq<char>) -> bool {
    lowered(a) == lowered(b)
}

/// Whether `a` and `b` are the same but for the case of ASCII letters.
pub fn is_same_name(a: &str, b: &str) -> (r: bool)
    ensures
        r == same_name(a@, b@),
{
    let a = to_lowered(chars_of(a).as_slice());
    let b = to_lowered(chars_of(b).as_slice());
    same(a.as_slice(), b.as_slice())
}

// --------------------------------------------------------------- numbers

/// The character of the decimal digit `d`.
pub open spec fn digit(d: nat) -> char {
    (48 + d) as char
}

/// Whether `c` is a decimal digit.
pub open spec fn is_digit(c: char) -> bool {
    '0' <= c <= '9'
}

/// `n` in decimal, without leading zeros.
pub open spec fn decimal(n: nat) -> Seq<char>
    decreases n,
{
    if n < 10 {
        seq![digit(n)]
    } else {
        decimal(n / 10).push(digit(n % 10))
    }
}

/// The number that the digits `s` spell.
pub open spec fn value(s: Seq<char>) -> nat
    decreases s.len(),
{
    if s.len() == 0 {
        0
    } else {
        value(s.drop_last()) * 10 + (s.last() as int - 48) as nat
    }
}

/// Whether `s` is one digit or more and nothing else.
pub open spec fn all_digits(s: Seq<char>) -> bool {
    s.len() > 0 && forall|i: int| 0 <= i < s.len() ==> is_digit(#[trigger] s[i])
}

/// The number up to `max` that `s` spells: decimal digits, with or without a
/// plus sign before them.
pub open spec fn number(s: Seq<char>, max: nat) -> Option<nat> {
    let digits = if s.len() > 0 && s[0] == '+' {
        s.skip(1)
    } else {
        s
    };
    if all_digits(digits) && value(digits) <= max {
        Some(value(digits))
    } else {
        None
    }
}

/// Appends `n` in decimal.
pub fn push_decimal(out: &mut String, n: u64)
    ensures
        final(out)@ == old(out)@ + decimal(n as nat),
    decreases n,
{
    if n >= 10 {
        push_decimal(out, n / 10);
    }
    let d: u8 = (n % 10) as u8;
    out.push((48 + d) as char);
    assert(out@ =~= old(out)@ + decimal(n as nat));
}

/// More digits spell no smaller number.
proof fn lemma_value_grows(s: Seq<char>, at: int)
    requires
        0 <= at <= s.len(),
    ensures
        value(s.take(at)) <= value(s),
    decreases s.len(),
{
    if at == s.len() {
        assert(s.take(at) =~= s);
    } else {
        lemma_value_grows(s.drop_last(), at);
        assert(s.drop_last().take(at) =~= s.take(at));
    }
}

/// The number up to `max` that the digits `s` spell.
pub fn digits_value(s: &[char], max: u64) -> (r: Option<u64>)
    ensures
        r matches Some(n) ==> all_digits(s@) && value(s@) == n && n <= max,
        r is None ==> !(all_digits(s@) && value(s@) <= max),
{
    if s.len() == 0 {
        return None;
    }
    let mut n: u64 = 0;
    for at in 0..s.len()
        invariant
            n == value(s@.take(at as int)),
            n <= max,
            forall|i: int| 0 <= i < at ==> is_digit(#[trigger] s@[i]),
    {
        let c = s[at];
        if c < '0' || '9' < c {
            assert(!is_digit(s@[at as int]));
            return None;
        }
        let d: u64 = (c as u8 - 48) as u64;
        proof {
            assert(s@.take(at + 1).drop_last() =~= s@.take(at as int));
            lemma_value_grows(s@, at + 1);
        }
        if d > max || n > (max - d) / 10 {
            return None;
        }
        n = n * 10 + d;
    }
    assert(s@.take(s.len() as int) =~= s@);
    Some(n)
}

/// The number up to `max` that `s` spells, with or without a plus sign.
pub fn number_of(s: &[char], max: u64) -> (r: Option<u64>)
    ensures
        r matches Some(n) ==> number(s@, max as nat) == Some(n as nat),
        r is None ==> number(s@, max as nat) is None,
{
    if s.len() > 0 && s[0] == '+' {
        digits_value(slice_subrange(s, 1, s.len()), max)
    } else {
        digits_value(s, max)
    }
}

/// A number in decimal is digits alone and reads back as that number, up to
/// any limit that it is within.
pub proof fn law_decimal_reads_back(n: nat, max: nat)
    requires
        n <= max,
    ensures
        all_digits(decimal(n)),
        number(decimal(n), max) == Some(n),
{
    lemma_decimal(n);
    assert(is_digit(decimal(n)[0]));
}

proof fn lemma_decimal(n: nat)
    ensures
        all_digits(decimal(n)),
        value(decimal(n)) == n,
    decreases n,
{
    if n < 10 {
        let s = seq![digit(n)];
        assert(value(s.drop_last()) == 0);
        assert(s.last() as int == 48 + n);
    } else {
        lemma_decimal(n / 10);
        let s = decimal(n);
        assert(s.drop_last() =~= decimal(n / 10));
        assert(s.last() as int == 48 + n % 10);
        assert forall|i: int| 0 <= i < s.len() implies is_digit(#[trigger] s[i]) by {
            if i < s.len() - 1 {
                assert(s[i] == decimal(n / 10)[i]);
            }
        }
    }
}

/// Digits hold no other character.
pub proof fn lemma_decimal_holds_no(n: nat, c: char)
    requires
        !is_digit(c),
    ensures
        !decimal(n).contains(c),
{
    law_decimal_reads_back(n, n);
    if decimal(n).contains(c) {
        let i = choose|i: int| 0 <= i < decimal(n).len() && decimal(n)[i] == c;
        assert(is_digit(decimal(n)[i]));
    }
}

/// A number below a thousand takes at most three digits, and none but zero
/// begins with a zero.
pub proof fn lemma_decimal_short(n: nat)
    ensures
        n < 1000 ==> decimal(n).len() <= 3,
        n > 0 ==> decimal(n)[0] != '0',
    decreases n,
{
    reveal_with_fuel(decimal, 3);
    if n >= 10 {
        lemma_decimal_short(n / 10);
        lemma_decimal(n / 10);
        assert(decimal(n)[0] == decimal(n / 10)[0]);
    } else {
        assert(digit(n) as int == 48 + n);
    }
}

// ------------------------------------------------------------------ laws

/// What each of several parts spells is told one by one, in order and with
/// none left out.
pub proof fn law_parts_are_told_one_by_one(strings: Seq<String>, parts: Seq<&[char]>, i: int)
    ensures
        spellings(strings).len() == strings.len(),
        0 <= i < strings.len() ==> spellings(strings)[i] == strings[i]@,
        parts_view(parts).len() == parts.len(),
        0 <= i < parts.len() ==> parts_view(parts)[i] == parts[i]@,
{
}

/// Text begins with `part` where something follows `part` in it and nothing
/// comes before, and ends with `part` the other way round.
pub proof fn law_beginnings_and_endings(part: Seq<char>, rest: Seq<char>, s: Seq<char>)
    ensures
        starts(part + rest, part),
        starts(s, part) ==> s == part + s.skip(part.len() as int),
        ends(rest + part, part),
        ends(s, part) ==> s == s.take(s.len() - part.len()) + part,
{
    assert((part + rest).take(part.len() as int) =~= part);
    assert((rest + part).skip(rest.len() as int) =~= part);
    if starts(s, part) {
        assert(s =~= s.take(part.len() as int) + s.skip(part.len() as int));
    }
    if ends(s, part) {
        let at = s.len() - part.len();
        assert(s =~= s.take(at) + s.skip(at));
    }
}

/// Only the dots at the end go, and all of them: text that ends in no dot is
/// what is left of it with any number of dots after it.
pub proof fn law_only_last_dots_go(s: Seq<char>, dots: Seq<char>)
    requires
        s.len() > 0 ==> s.last() != '.',
        forall|i: int| 0 <= i < dots.len() ==> dots[i] == '.',
    ensures
        undotted(s + dots) == s,
    decreases dots.len(),
{
    if dots.len() > 0 {
        let all = s + dots;
        assert(all.last() == dots[dots.len() - 1]);
        assert(all.drop_last() =~= s + dots.drop_last());
        law_only_last_dots_go(s, dots.drop_last());
    } else {
        assert(s + dots =~= s);
    }
}

/// A character is found where it first stands: after what holds none, and at
/// the end of what holds none at all.
pub proof fn law_found_where_first(before: Seq<char>, c: char, after: Seq<char>)
    requires
        !before.contains(c),
    ensures
        first_at(before, c) == before.len(),
        first_at(before.push(c) + after, c) == before.len(),
{
    lemma_parted(before, c, after);
    assert forall|i: int| 0 <= i < before.len() implies before[i] != c by {
        assert(before.contains(before[i]));
    }
    lemma_first_at_is(before, c, before.len() as int);
}

/// Text is split wherever `c` stands: what is split of two texts with `c`
/// between them is what is split of the one and then of the other, and text
/// without `c` stays in one piece.
pub proof fn law_split_wherever_it_stands(a: Seq<char>, c: char, b: Seq<char>)
    ensures
        split(a.push(c) + b, c) == split(a, c) + split(b, c),
        !a.contains(c) ==> split(a, c) == seq![a],
    decreases a.len(),
{
    if a.contains(c) {
        lemma_first_at(a, c);
        let at = first_at(a, c) as int;
        if at >= a.len() {
            let i = choose|i: int| 0 <= i < a.len() && a[i] == c;
            assert(a[i] != c);
        }
        let x = a.take(at);
        let y = a.skip(at + 1);
        if x.contains(c) {
            let i = choose|i: int| 0 <= i < x.len() && x[i] == c;
            assert(a[i] == c);
        }
        law_split_wherever_it_stands(y, c, b);
        lemma_split(x, c, y.push(c) + b);
        assert(a.push(c) + b =~= x.push(c) + (y.push(c) + b));
        assert(split(a.push(c) + b, c) =~= split(a, c) + split(b, c));
    } else {
        lemma_split(a, c, b);
    }
}

/// Split text is its first piece, and then `c` and what the other pieces are
/// of, where there are others.
pub proof fn lemma_unsplit(s: Seq<char>, c: char)
    ensures
        split(s, c).len() > 0,
        split(s, c).len() == 1 ==> s == split(s, c)[0],
        split(s, c).len() > 1 ==> {
            let rest = s.skip(split(s, c)[0].len() as int + 1);
            &&& s == split(s, c)[0].push(c) + rest
            &&& split(rest, c) == split(s, c).skip(1)
        },
    decreases s.len(),
{
    lemma_first_at(s, c);
    let at = first_at(s, c) as int;
    if at < s.len() {
        let rest = s.skip(at + 1);
        lemma_unsplit(rest, c);
        assert(s =~= s.take(at).push(c) + rest);
        assert(split(s, c).skip(1) =~= split(rest, c));
    }
}

/// A line ends at a line feed, with or without a carriage return before it:
/// the lines of a text after such a line are that line and then the lines of
/// the text. What no line feed ends is a line too, unless it is empty, and
/// keeps a carriage return.
pub proof fn law_lines_end_at_feeds(line: Seq<char>, rest: Seq<char>)
    requires
        !line.contains('\n'),
    ensures
        lines(seq![]) == Seq::<Seq<char>>::empty(),
        line.len() > 0 ==> lines(line) == seq![line],
        lines(line.push('\r').push('\n') + rest) == seq![line] + lines(rest),
        line.len() == 0 || line.last() != '\r' ==> lines(line.push('\n') + rest) == seq![line]
            + lines(rest),
{
    law_found_where_first(line, '\n', rest);
    lemma_parted(line, '\n', rest);
    let carried = line.push('\r');
    if carried.contains('\n') {
        let i = choose|i: int| 0 <= i < carried.len() && carried[i] == '\n';
        assert(line[i] == '\n');
    }
    lemma_parted(carried, '\n', rest);
    assert(uncarried(carried) =~= line);
}

/// The characters with Unicode's White_Space property, by their numbers.
pub proof fn law_white_space(c: char)
    ensures
        white_space(c) <==> {
            let n = c as int;
            ||| n == 0x9 || n == 0xA || n == 0xB || n == 0xC || n == 0xD || n == 0x20
            ||| n == 0x85 || n == 0xA0 || n == 0x1680 || n == 0x2028 || n == 0x2029
            ||| n == 0x202F || n == 0x205F || n == 0x3000
            ||| n == 0x2000 || n == 0x2001 || n == 0x2002 || n == 0x2003 || n == 0x2004
            ||| n == 0x2005 || n == 0x2006 || n == 0x2007 || n == 0x2008 || n == 0x2009
            ||| n == 0x200A
        },
{
}

/// Whitespace before text is no part of what is trimmed.
proof fn lemma_start_goes(before: Seq<char>, s: Seq<char>)
    requires
        forall|i: int| 0 <= i < before.len() ==> white_space(#[trigger] before[i]),
        s.len() > 0 ==> !white_space(s[0]),
    ensures
        trimmed_start(before + s) == s,
    decreases before.len(),
{
    let all = before + s;
    if before.len() > 0 {
        assert(all[0] == before[0]);
        assert(all.skip(1) =~= before.skip(1) + s);
        assert forall|i: int| 0 <= i < before.skip(1).len() implies white_space(
            #[trigger] before.skip(1)[i],
        ) by {
            assert(before.skip(1)[i] == before[i + 1]);
        }
        lemma_start_goes(before.skip(1), s);
    } else {
        assert(all =~= s);
    }
}

/// Whitespace after text is no part of what is trimmed.
proof fn lemma_end_goes(s: Seq<char>, after: Seq<char>)
    requires
        forall|i: int| 0 <= i < after.len() ==> white_space(#[trigger] after[i]),
        s.len() > 0 ==> !white_space(s.last()),
    ensures
        trimmed_end(s + after) == s,
    decreases after.len(),
{
    let all = s + after;
    if after.len() > 0 {
        assert(all.last() == after[after.len() - 1]);
        assert(all.drop_last() =~= s + after.drop_last());
        assert forall|i: int| 0 <= i < after.drop_last().len() implies white_space(
            #[trigger] after.drop_last()[i],
        ) by {
            assert(after.drop_last()[i] == after[i]);
        }
        lemma_end_goes(s, after.drop_last());
    } else {
        assert(all =~= s);
    }
}

/// Whitespace around text goes, all of it and nothing else: text that neither
/// begins nor ends with whitespace is what is left of it with any whitespace
/// before and after it.
pub proof fn law_whitespace_around_goes(before: Seq<char>, s: Seq<char>, after: Seq<char>)
    requires
        forall|i: int| 0 <= i < before.len() ==> white_space(#[trigger] before[i]),
        forall|i: int| 0 <= i < after.len() ==> white_space(#[trigger] after[i]),
        s.len() > 0 ==> !white_space(s[0]) && !white_space(s.last()),
    ensures
        trimmed(before + s + after) == s,
{
    if s.len() > 0 {
        assert(before + s + after =~= before + (s + after));
        lemma_start_goes(before, s + after);
        lemma_end_goes(s, after);
    } else {
        let all = before + s + after;
        assert(all =~= all + seq![]);
        assert forall|i: int| 0 <= i < all.len() implies white_space(#[trigger] all[i]) by {
            if i < before.len() {
                assert(all[i] == before[i]);
            } else {
                assert(all[i] == after[i - before.len()]);
            }
        }
        lemma_start_goes(all, seq![]);
        assert(trimmed(all) =~= s);
    }
}

/// Lower case changes the ASCII capitals alone, each to the letter 32 above
/// it.
pub proof fn law_only_capitals_are_lowered(s: Seq<char>, i: int)
    requires
        0 <= i < s.len(),
    ensures
        lowered(s).len() == s.len(),
        'A' <= s[i] <= 'Z' ==> lowered(s)[i] as int == s[i] as int + 32,
        !('A' <= s[i] <= 'Z') ==> lowered(s)[i] == s[i],
{
}

/// Two names are the same where they are as long, and differ at no place by
/// more than the case of one ASCII letter.
pub proof fn law_names_differ_by_more_than_case(a: Seq<char>, b: Seq<char>)
    ensures
        same_name(a, b) <==> a.len() == b.len() && forall|i: int|
            0 <= i < a.len() ==> {
                ||| #[trigger] a[i] == b[i]
                ||| 'A' <= a[i] <= 'Z' && b[i] as int == a[i] as int + 32
                ||| 'A' <= b[i] <= 'Z' && a[i] as int == b[i] as int + 32
            },
{
    let alike = a.len() == b.len() && forall|i: int|
        0 <= i < a.len() ==> {
            ||| #[trigger] a[i] == b[i]
            ||| 'A' <= a[i] <= 'Z' && b[i] as int == a[i] as int + 32
            ||| 'A' <= b[i] <= 'Z' && a[i] as int == b[i] as int + 32
        };
    if same_name(a, b) {
        assert(lowered(a).len() == a.len() && lowered(b).len() == b.len());
        assert forall|i: int| 0 <= i < a.len() implies {
            ||| #[trigger] a[i] == b[i]
            ||| 'A' <= a[i] <= 'Z' && b[i] as int == a[i] as int + 32
            ||| 'A' <= b[i] <= 'Z' && a[i] as int == b[i] as int + 32
        } by {
            assert(lowered(a)[i] == lower(a[i]));
            assert(lowered(b)[i] == lower(b[i]));
        }
    }
    if alike {
        assert forall|i: int| 0 <= i < a.len() implies lowered(a)[i] == lowered(b)[i] by {
            assert(a[i] == a[i]);
            assert(lowered(a)[i] == lower(a[i]));
            assert(lowered(b)[i] == lower(b[i]));
        }
        assert(lowered(a) =~= lowered(b));
    }
}

/// A number in decimal is that of its tens and then the digit of its ones,
/// and the digit alone where it has no tens.
pub proof fn law_decimal_goes_by_tens(tens: nat, ones: nat, c: char)
    requires
        ones < 10,
        c as int == '0' as int + ones,
    ensures
        decimal(10 * tens + ones) == if tens == 0 {
            seq![c]
        } else {
            decimal(tens).push(c)
        },
{
    assert(digit(ones) == c);
}

/// Digits that spell a number are its decimal after any zeros.
proof fn lemma_digits_padded(s: Seq<char>)
    requires
        all_digits(s),
    ensures
        decimal(value(s)).len() <= s.len(),
        s.skip(s.len() - decimal(value(s)).len()) == decimal(value(s)),
        forall|i: int| 0 <= i < s.len() - decimal(value(s)).len() ==> s[i] == '0',
    decreases s.len(),
{
    let c = s.last();
    assert(c == s[s.len() - 1]);
    let d = (c as int - 48) as nat;
    let front = s.drop_last();
    assert(digit(d) == c);
    if front.len() == 0 {
        assert(value(front) == 0);
        assert(s =~= seq![c]);
        assert(s.skip(0) =~= s);
    } else {
        assert(all_digits(front)) by {
            assert forall|i: int| 0 <= i < front.len() implies is_digit(#[trigger] front[i]) by {
                assert(front[i] == s[i]);
            }
        }
        lemma_digits_padded(front);
        let v = value(front);
        let short = decimal(v);
        let at = front.len() - short.len();
        law_decimal_goes_by_tens(v, d, c);
        assert(value(s) == 10 * v + d);
        assert forall|i: int| 0 <= i < at implies s[i] == '0' by {
            assert(front[i] == s[i]);
        }
        if v == 0 {
            assert(short =~= seq!['0']);
            assert(front[at] == front.skip(at)[0]);
            assert(s[at] == front[at]);
            assert(s.skip(s.len() - 1) =~= seq![c]);
        } else {
            assert(s.skip(at) =~= front.skip(at).push(c));
        }
    }
}

/// Zeros before digits change nothing of what they spell.
proof fn lemma_zeros_go(zeros: Seq<char>, s: Seq<char>)
    requires
        forall|i: int| 0 <= i < zeros.len() ==> zeros[i] == '0',
    ensures
        value(zeros + s) == value(s),
    decreases zeros.len() + s.len(),
{
    let all = zeros + s;
    if s.len() > 0 {
        assert(all.drop_last() =~= zeros + s.drop_last());
        assert(all.last() == s.last());
        lemma_zeros_go(zeros, s.drop_last());
    } else if zeros.len() > 0 {
        assert(all =~= zeros);
        assert(zeros.drop_last() + s =~= zeros.drop_last());
        lemma_zeros_go(zeros.drop_last(), s);
        assert(zeros.last() == zeros[zeros.len() - 1]);
    }
}

/// Digits spell a number just where they are its decimal, with or without
/// zeros before it.
pub proof fn law_digits_spell_their_decimal(s: Seq<char>, n: nat)
    ensures
        all_digits(s) && value(s) == n <==> {
            &&& decimal(n).len() <= s.len()
            &&& s.skip(s.len() - decimal(n).len()) == decimal(n)
            &&& forall|i: int| 0 <= i < s.len() - decimal(n).len() ==> s[i] == '0'
        },
{
    if all_digits(s) && value(s) == n {
        lemma_digits_padded(s);
    }
    let at = s.len() - decimal(n).len();
    if at >= 0 && s.skip(at) == decimal(n) && forall|i: int| 0 <= i < at ==> s[i] == '0' {
        let zeros = s.take(at);
        lemma_decimal(n);
        assert(s =~= zeros + decimal(n));
        assert forall|i: int| 0 <= i < zeros.len() implies zeros[i] == '0' by {
            assert(zeros[i] == s[i]);
        }
        lemma_zeros_go(zeros, decimal(n));
        assert forall|i: int| 0 <= i < s.len() implies is_digit(#[trigger] s[i]) by {
            if i >= at {
                assert(s[i] == decimal(n)[i - at]);
            }
        }
    }
}

/// Text reads as the number `n` just where `n` is within the limit and the
/// text is the decimal of `n`, with or without zeros before it. One plus sign
/// before that changes nothing, and a second is refused.
pub proof fn law_number_is_its_decimal(s: Seq<char>, max: nat, n: nat)
    ensures
        s.len() == 0 || s[0] != '+' ==> {
            &&& number(s, max) == Some(n) <==> {
                &&& n <= max
                &&& decimal(n).len() <= s.len()
                &&& s.skip(s.len() - decimal(n).len()) == decimal(n)
                &&& forall|i: int| 0 <= i < s.len() - decimal(n).len() ==> s[i] == '0'
            }
            &&& number(seq!['+'] + s, max) == number(s, max)
        },
        s.len() > 0 && s[0] == '+' ==> number(seq!['+'] + s, max) is None,
{
    law_digits_spell_their_decimal(s, n);
    let signed = seq!['+'] + s;
    assert(signed[0] == '+');
    assert(signed.skip(1) =~= s);
    if s.len() > 0 && s[0] == '+' {
        assert(!is_digit(s[0]));
    }
}

} // verus!
