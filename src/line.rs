use crate::vocab::word_views;
use vstd::prelude::*;

verus! {

/// A parsed input line: the sentence identifier, the number of words after
/// it, and those words.
pub type ProcessedLine = (u32, usize, Vec<String>);

/// Unicode White_Space, the characters that `char::is_whitespace` accepts.
pub open spec fn is_white_space(c: char) -> bool {
    let u = c as u32;
    ||| 0x9 <= u <= 0xd
    ||| u == 0x20
    ||| u == 0x85
    ||| u == 0xa0
    ||| u == 0x1680
    ||| 0x2000 <= u <= 0x200a
    ||| u == 0x2028
    ||| u == 0x2029
    ||| u == 0x202f
    ||| u == 0x205f
    ||| u == 0x3000
}

/// The words of `s`: its maximal runs of characters that are not white
/// space, in order.
pub open spec fn words_of(s: Seq<char>) -> Seq<Seq<char>>
    decreases s.len(),
{
    if s.len() == 0 {
        Seq::<Seq<char>>::empty()
    } else {
        let ws = words_of(s.drop_last());
        let c = s.last();
        if is_white_space(c) {
            ws
        } else if s.len() >= 2 && !is_white_space(s[s.len() - 2]) {
            ws.update(ws.len() - 1, ws.last().push(c))
        } else {
            ws.push(seq![c])
        }
    }
}

/// An ASCII decimal digit.
pub open spec fn is_digit(c: char) -> bool {
    '0' <= c <= '9'
}

/// The number that a string of decimal digits spells.
pub open spec fn decimal_value(d: Seq<char>) -> int
    decreases d.len(),
{
    if d.len() == 0 {
        0
    } else {
        decimal_value(d.drop_last()) * 10 + (d.last() as u32 - '0' as u32)
    }
}

/// The digits of an unsigned number, after an optional leading `+`.
pub open spec fn unsigned_digits(s: Seq<char>) -> Seq<char> {
    if s.len() > 0 && s[0] == '+' {
        s.drop_first()
    } else {
        s
    }
}

/// `s` is the decimal text of a `u32`: an optional `+`, then one or more
/// digits whose value fits in 32 bits.
pub open spec fn parses_as_u32(s: Seq<char>) -> bool {
    let d = unsigned_digits(s);
    &&& d.len() > 0
    &&& forall|i: int| 0 <= i < d.len() ==> is_digit(#[trigger] d[i])
    &&& decimal_value(d) <= u32::MAX
}

proof fn lemma_decimal_value_nonneg(d: Seq<char>)
    requires
        forall|i: int| 0 <= i < d.len() ==> is_digit(#[trigger] d[i]),
    ensures
        decimal_value(d) >= 0,
    decreases d.len(),
{
    if d.len() > 0 {
        lemma_decimal_value_nonneg(d.drop_last());
    }
}

/// A line that can be processed: its first word is a `u32`.
pub open spec fn line_ok(line: Seq<char>) -> bool {
    words_of(line).len() > 0 && parses_as_u32(words_of(line)[0])
}

/// Relies on `str::split_whitespace`: the words of the line, in order.
#[verifier::external_body]
fn split_words(line: &str) -> (r: Vec<String>)
    ensures
        word_views(r@) == words_of(line@),
{
    line.split_whitespace().map(str::to_owned).collect()
}

/// Relies on `u32`'s `FromStr`: an optional `+` then decimal digits, whose
/// value must fit.
#[verifier::external_body]
fn parse_u32(s: &String) -> (r: Option<u32>)
    ensures
        r == (if parses_as_u32(s@) {
            Some(decimal_value(unsigned_digits(s@)) as u32)
        } else {
            None::<u32>
        }),
{
    s.parse::<u32>().ok()
}

/// Splits a line into its identifier, the number of words that follow it,
/// and those words.
pub fn process_line(line: &str) -> (r: ProcessedLine)
    requires
        line_ok(line@),
    ensures
        r.0 == decimal_value(unsigned_digits(words_of(line@)[0])),
        r.1 == words_of(line@).len() - 1,
        word_views(r.2@) == words_of(line@).drop_first(),
{
    let mut rest_words = split_words(line);
    let id_string = rest_words.remove(0);
    assert(id_string@ == words_of(line@)[0]);
    proof {
        lemma_decimal_value_nonneg(unsigned_digits(id_string@));
    }
    let id = parse_u32(&id_string).unwrap();
    assert(word_views(rest_words@) =~= words_of(line@).drop_first());
    (id, rest_words.len(), rest_words)
}

} // verus!
