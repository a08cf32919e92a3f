//! TXT strings as a Stream of lines, and back.

use vstd::prelude::*;
use vstd::utf8::{
    decode_utf8, encode_utf8, encode_utf8_decode_utf8, encode_utf8_valid_utf8, valid_utf8,
};

use crate::text;

verus! {

/// `strings`, each with a line feed after it.
pub open spec fn lined(strings: Seq<Seq<char>>) -> Seq<char>
    decreases strings.len(),
{
    if strings.len() == 0 {
        seq![]
    } else {
        lined(strings.drop_last()) + strings.last().push('\n')
    }
}

/// The TXT strings that the lines of `s` name: each trimmed, blank ones left
/// out.
pub open spec fn txt_named(s: Seq<char>) -> Seq<Seq<char>> {
    text::lines(s).map_values(|line: Seq<char>| text::trimmed(line)).filter(
        |line: Seq<char>| line.len() > 0,
    )
}

/// `bytes` as text, with replacement characters for what is not UTF-8.
pub uninterp spec fn lossy_text(bytes: Seq<u8>) -> Seq<char>;

/// `String::from_utf8_lossy`: the text that depends on the bytes alone, and
/// that valid UTF-8 decodes to. Which characters replace what is not UTF-8 is
/// left unsaid.
#[verifier::external_body]
pub(crate) fn lossy(bytes: &[u8]) -> (s: String)
    ensures
        s@ == lossy_text(bytes@),
        valid_utf8(bytes@) ==> s@ == decode_utf8(bytes@),
{
    String::from_utf8_lossy(bytes).into_owned()
}

/// The TXT strings that the lines of `s` name; blank lines skipped.
pub fn txt_strings(s: &str) -> (txt: Vec<String>)
    ensures
        text::spellings(txt@) == txt_named(s@),
{
    let chars = text::chars_of(s);
    let parts = text::lines_of(chars.as_slice());
    let ghost kept = |line: Seq<char>| line.len() > 0;
    let ghost lines = text::lines(s@).map_values(|line: Seq<char>| text::trimmed(line));
    let mut txt: Vec<String> = Vec::new();
    reveal(Seq::filter);
    assert(text::spellings(txt@) =~= lines.take(0).filter(kept));
    for at in 0..parts.len()
        invariant
            text::parts_view(parts@) == text::lines(s@),
            lines == text::lines(s@).map_values(|line: Seq<char>| text::trimmed(line)),
            kept == |line: Seq<char>| line.len() > 0,
            text::spellings(txt@) == lines.take(at as int).filter(kept),
    {
        reveal(Seq::filter);
        let line = text::trim(parts[at]);
        let ghost before = text::spellings(txt@);
        proof {
            assert(text::parts_view(parts@)[at as int] == parts@[at as int]@);
            assert(lines.take(at + 1).drop_last() =~= lines.take(at as int));
            assert(lines.take(at + 1).last() == line@);
        }
        if line.len() > 0 {
            txt.push(text::spelled(line));
            assert(text::spellings(txt@) =~= before.push(line@));
        }
    }
    assert(lines.take(parts.len() as int) =~= lines);
    txt
}

// ------------------------------------------------------------------ laws

proof fn lemma_lined_front(first: Seq<char>, rest: Seq<Seq<char>>)
    ensures
        lined(seq![first] + rest) == first.push('\n') + lined(rest),
    decreases rest.len(),
{
    let all = seq![first] + rest;
    if rest.len() == 0 {
        assert(lined(all.drop_last()) =~= seq![]);
        assert(lined(all) =~= first.push('\n') + lined(rest));
    } else {
        assert(all.drop_last() =~= seq![first] + rest.drop_last());
        lemma_lined_front(first, rest.drop_last());
        assert(lined(all) =~= first.push('\n') + lined(rest));
    }
}

/// Whether `s` can stand on a line: it holds no line feed, and ends in no
/// carriage return.
pub open spec fn one_line(s: Seq<char>) -> bool {
    &&& !s.contains('\n')
    &&& s.len() > 0 ==> s.last() != '\r'
}

/// Strings that each can stand on a line are the lines of their lines.
pub proof fn lemma_lines_of_lined(strings: Seq<Seq<char>>)
    requires
        forall|i: int| 0 <= i < strings.len() ==> one_line(#[trigger] strings[i]),
    ensures
        text::lines(lined(strings)) == strings,
    decreases strings.len(),
{
    if strings.len() == 0 {
        assert(text::lines(lined(strings)) =~= strings);
    } else {
        let first = strings[0];
        let rest = strings.skip(1);
        assert(strings =~= seq![first] + rest);
        lemma_lined_front(first, rest);
        assert forall|i: int| 0 <= i < rest.len() implies one_line(#[trigger] rest[i]) by {
            assert(rest[i] == strings[i + 1]);
        }
        lemma_lines_of_lined(rest);
        let s = lined(strings);
        assert(one_line(first));
        assert forall|i: int| 0 <= i < first.len() implies s[i] != '\n' by {
            assert(s[i] == first[i]);
            assert(first.contains(first[i]));
        }
        text::lemma_first_at_is(s, '\n', first.len() as int);
        assert(s.take(first.len() as int) =~= first);
        assert(s.skip(first.len() as int + 1) =~= lined(rest));
        assert(text::lines(s) =~= strings);
    }
}

/// Whether `s` is a TXT string that a line gives back: not blank, with no
/// whitespace around it and no line feed in it.
pub open spec fn settled(s: Seq<char>) -> bool {
    &&& s.len() > 0
    &&& text::trimmed(s) == s
    &&& !s.contains('\n')
}

proof fn lemma_trimmed_end(s: Seq<char>)
    ensures
        text::trimmed_end(s).len() <= s.len(),
        text::trimmed_end(s) == s.take(text::trimmed_end(s).len() as int),
        text::trimmed_end(s).len() > 0 ==> !text::white_space(text::trimmed_end(s).last()),
    decreases s.len(),
{
    if s.len() > 0 && text::white_space(s.last()) {
        lemma_trimmed_end(s.drop_last());
        let n = text::trimmed_end(s).len() as int;
        assert(s.drop_last().take(n) =~= s.take(n));
    } else {
        assert(s.take(s.len() as int) =~= s);
    }
}

proof fn lemma_trimmed_start(s: Seq<char>)
    ensures
        text::trimmed_start(s).len() <= s.len(),
        text::trimmed_start(s) == s.skip(s.len() - text::trimmed_start(s).len()),
        text::trimmed_start(s).len() > 0 ==> !text::white_space(text::trimmed_start(s)[0]),
    decreases s.len(),
{
    if s.len() > 0 && text::white_space(s[0]) {
        lemma_trimmed_start(s.skip(1));
        let n = text::trimmed_start(s).len() as int;
        assert(s.skip(1).skip(s.len() - 1 - n) =~= s.skip(s.len() - n));
    } else {
        assert(s.skip(0) =~= s);
    }
}

/// What is trimmed is a stretch of `s` with no whitespace at either end, and
/// trimming it again changes nothing.
proof fn lemma_trimmed(s: Seq<char>)
    ensures
        forall|c: char| text::trimmed(s).contains(c) ==> s.contains(c),
        text::trimmed(s).len() > 0 ==> !text::white_space(text::trimmed(s).last()),
        text::trimmed(text::trimmed(s)) == text::trimmed(s),
{
    let started = text::trimmed_start(s);
    let t = text::trimmed(s);
    lemma_trimmed_start(s);
    lemma_trimmed_end(started);
    assert forall|c: char| t.contains(c) implies s.contains(c) by {
        let i = choose|i: int| 0 <= i < t.len() && t[i] == c;
        assert(started[i] == c);
        assert(s[s.len() - started.len() + i] == c);
    }
    if t.len() > 0 {
        assert(t[0] == started[0]);
        assert(text::trimmed_start(t) == t);
        assert(text::trimmed_end(t) == t);
    }
}

proof fn lemma_filter_keeps_all(strings: Seq<Seq<char>>)
    requires
        forall|i: int| 0 <= i < strings.len() ==> (#[trigger] strings[i]).len() > 0,
    ensures
        strings.filter(|line: Seq<char>| line.len() > 0) == strings,
    decreases strings.len(),
{
    reveal(Seq::filter);
    if strings.len() > 0 {
        lemma_filter_keeps_all(strings.drop_last());
        assert(strings.drop_last().push(strings.last()) =~= strings);
    }
}

/// TXT strings read back: the Stream of lines that strings make is UTF-8, and
/// names those strings, where none is blank, has whitespace around it or a
/// line feed in it.
pub proof fn law_txt_reads_back(strings: Seq<Seq<char>>)
    requires
        forall|i: int| 0 <= i < strings.len() ==> settled(#[trigger] strings[i]),
    ensures
        valid_utf8(encode_utf8(lined(strings))),
        txt_named(decode_utf8(encode_utf8(lined(strings)))) == strings,
{
    let s = lined(strings);
    encode_utf8_valid_utf8(s);
    encode_utf8_decode_utf8(s);
    assert forall|i: int| 0 <= i < strings.len() implies one_line(#[trigger] strings[i]) by {
        assert(settled(strings[i]));
        lemma_trimmed(strings[i]);
    }
    lemma_lines_of_lined(strings);
    assert(strings.map_values(|line: Seq<char>| text::trimmed(line)) =~= strings) by {
        assert forall|i: int| 0 <= i < strings.len() implies text::trimmed(strings[i])
            == strings[i] by {
            assert(settled(strings[i]));
        }
    }
    assert forall|i: int| 0 <= i < strings.len() implies (#[trigger] strings[i]).len() > 0 by {
        assert(settled(strings[i]));
    }
    lemma_filter_keeps_all(strings);
}

proof fn lemma_lines_hold_no_feed(s: Seq<char>)
    ensures
        forall|i: int|
            0 <= i < text::lines(s).len() ==> !(#[trigger] text::lines(s)[i]).contains('\n'),
    decreases s.len(),
{
    let at = text::first_at(s, '\n') as int;
    text::lemma_first_at(s, '\n');
    if s.len() > 0 && at < s.len() {
        lemma_lines_hold_no_feed(s.skip(at + 1));
        assert forall|i: int| 0 <= i < text::lines(s).len() implies !(#[trigger] text::lines(
            s,
        )[i]).contains('\n') by {
            if i > 0 {
                assert(text::lines(s)[i] == text::lines(s.skip(at + 1))[i - 1]);
            } else {
                assert(text::lines(s)[0] == text::uncarried(s.take(at)));
            }
        }
    }
}

/// What a Stream names is settled: every TXT string that any text names is
/// one that a line gives back, so writing the strings as lines and reading
/// them again changes nothing.
pub proof fn law_named_txt_is_settled(s: Seq<char>)
    ensures
        forall|i: int| 0 <= i < txt_named(s).len() ==> settled(#[trigger] txt_named(s)[i]),
        txt_named(decode_utf8(encode_utf8(lined(txt_named(s))))) == txt_named(s),
{
    let lines = text::lines(s).map_values(|line: Seq<char>| text::trimmed(line));
    let kept = |line: Seq<char>| line.len() > 0;
    let named = txt_named(s);
    lemma_lines_hold_no_feed(s);
    assert forall|i: int| 0 <= i < named.len() implies settled(#[trigger] named[i]) by {
        lines.lemma_filter_pred(kept, i);
        assert(lines.filter(kept).contains(named[i]));
        lines.lemma_filter_contains_rev(kept, named[i]);
        let j = choose|j: int| 0 <= j < lines.len() && lines[j] == named[i];
        lemma_trimmed(text::lines(s)[j]);
    }
    law_txt_reads_back(named);
}

/// TXT strings are written one after another, a line each: strings and then
/// more are the lines of the ones and then of the others, and the line of one
/// is the string and a line feed.
pub proof fn law_strings_are_written_a_line_each(
    a: Seq<Seq<char>>,
    b: Seq<Seq<char>>,
    string: Seq<char>,
)
    ensures
        lined(a + b) == lined(a) + lined(b),
        lined(seq![string]) == string.push('\n'),
        lined(seq![]) == Seq::<char>::empty(),
    decreases b.len(),
{
    assert(seq![string].drop_last() =~= seq![]);
    assert(lined(seq![string].drop_last()) =~= seq![]);
    assert(lined(seq![string]) =~= string.push('\n'));
    if b.len() > 0 {
        assert((a + b).drop_last() =~= a + b.drop_last());
        law_strings_are_written_a_line_each(a, b.drop_last(), string);
        assert(lined(a + b) =~= lined(a) + lined(b));
    } else {
        assert(a + b =~= a);
        assert(lined(a) + lined(b) =~= lined(a));
    }
}

/// One more whitespace character at the end is trimmed too.
proof fn lemma_trimmed_pushed(s: Seq<char>, c: char)
    requires
        text::white_space(c),
    ensures
        text::trimmed(s.push(c)) == text::trimmed(s),
    decreases s.len(),
{
    let more = s.push(c);
    if s.len() == 0 {
        assert(more.skip(1) =~= s);
        assert(text::trimmed_start(more) == text::trimmed_start(s));
    } else if text::white_space(s[0]) {
        assert(more[0] == s[0]);
        assert(more.skip(1) =~= s.skip(1).push(c));
        lemma_trimmed_pushed(s.skip(1), c);
    } else {
        assert(more[0] == s[0]);
        assert(more.drop_last() =~= s);
    }
}

/// What one line names, trimmed.
proof fn lemma_one_line_named(line: Seq<char>, rest: Seq<char>)
    requires
        !line.contains('\n'),
    ensures
        txt_named(line) == if text::trimmed(line).len() > 0 {
            seq![text::trimmed(line)]
        } else {
            seq![]
        },
        txt_named(line.push('\n') + rest) == txt_named(line) + txt_named(rest),
{
    let to = |line: Seq<char>| text::trimmed(line);
    let kept = |line: Seq<char>| line.len() > 0;
    reveal(Seq::filter);
    text::law_found_where_first(line, '\n', rest);
    text::lemma_parted(line, '\n', rest);
    let short = text::uncarried(line);
    if short != line {
        lemma_trimmed_pushed(short, '\r');
        assert(short.push('\r') =~= line);
    }
    let one = seq![text::trimmed(line)];
    assert(one.drop_last() =~= seq![]);
    assert(one.drop_last().filter(kept) =~= seq![]);
    if line.len() > 0 {
        assert(text::lines(line).map_values(to) =~= one);
    } else {
        assert(text::lines(line).map_values(to) =~= seq![]);
    }
    assert(txt_named(line) =~= one.filter(kept));
    let all = text::lines(line.push('\n') + rest);
    assert(all == seq![short] + text::lines(rest));
    assert(all.map_values(to) =~= one + text::lines(rest).map_values(to));
    Seq::filter_distributes_over_add(one, text::lines(rest).map_values(to), kept);
}

/// A Stream is named line by line: what two texts with a line feed between
/// them name is what the one names and then what the other does, and a line
/// feed at the end of a text, which may end in one or not, names nothing
/// more.
pub proof fn law_txt_is_named_line_by_line(a: Seq<char>, b: Seq<char>)
    ensures
        txt_named(a.push('\n') + b) == txt_named(a) + txt_named(b),
        txt_named(a.push('\n')) == txt_named(a),
    decreases a.len(),
{
    let none = Seq::<char>::empty();
    assert(txt_named(none) =~= seq![]) by {
        lemma_one_line_named(none, none);
        assert(text::trimmed(none) =~= none);
    }
    assert(a.push('\n') + none =~= a.push('\n'));
    if a.contains('\n') {
        text::lemma_first_at(a, '\n');
        let at = text::first_at(a, '\n') as int;
        if at >= a.len() {
            let i = choose|i: int| 0 <= i < a.len() && a[i] == '\n';
            assert(a[i] != '\n');
        }
        let x = a.take(at);
        let y = a.skip(at + 1);
        if x.contains('\n') {
            let i = choose|i: int| 0 <= i < x.len() && x[i] == '\n';
            assert(a[i] == '\n');
        }
        law_txt_is_named_line_by_line(y, b);
        assert(a =~= x.push('\n') + y);
        assert(a.push('\n') + b =~= x.push('\n') + (y.push('\n') + b));
        assert(a.push('\n') =~= x.push('\n') + y.push('\n'));
        lemma_one_line_named(x, y);
        lemma_one_line_named(x, y.push('\n') + b);
        lemma_one_line_named(x, y.push('\n'));
        assert(txt_named(a.push('\n') + b) =~= txt_named(a) + txt_named(b));
    } else {
        lemma_one_line_named(a, b);
        lemma_one_line_named(a, none);
        assert(txt_named(a) + txt_named(none) =~= txt_named(a));
    }
}

/// A line names the text on it: text that neither begins nor ends with
/// whitespace is the one string that it names with whitespace around it, and
/// whitespace alone names nothing.
pub proof fn law_line_names_the_text_on_it(before: Seq<char>, s: Seq<char>, after: Seq<char>)
    requires
        !(before + s + after).contains('\n'),
        forall|i: int| 0 <= i < before.len() ==> text::white_space(#[trigger] before[i]),
        forall|i: int| 0 <= i < after.len() ==> text::white_space(#[trigger] after[i]),
        s.len() > 0 ==> !text::white_space(s[0]) && !text::white_space(s.last()),
    ensures
        txt_named(before + s + after) == if s.len() > 0 {
            seq![s]
        } else {
            seq![]
        },
{
    text::law_whitespace_around_goes(before, s, after);
    lemma_one_line_named(before + s + after, seq![]);
}

/// Every line that is not blank is named, at any place of any text, between
/// what the text before it names and what the text after it does, whether or
/// not a line feed ends it.
pub proof fn law_every_line_is_named(before: Seq<char>, line: Seq<char>, after: Seq<char>)
    requires
        !line.contains('\n'),
    ensures
        ({
            let one = if text::trimmed(line).len() > 0 {
                seq![text::trimmed(line)]
            } else {
                seq![]
            };
            &&& txt_named(line) == one
            &&& txt_named(line.push('\n') + after) == one + txt_named(after)
            &&& txt_named(before.push('\n') + line) == txt_named(before) + one
            &&& txt_named(before.push('\n') + (line.push('\n') + after)) == txt_named(before) + (
            one + txt_named(after))
        }),
{
    lemma_one_line_named(line, after);
    law_txt_is_named_line_by_line(before, line);
    law_txt_is_named_line_by_line(before, line.push('\n') + after);
}

} // verus!
