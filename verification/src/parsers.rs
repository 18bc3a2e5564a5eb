//! Parsers for what a user types: separator strings with escapes, index
//! filter expressions, and regular expressions.

use crate::byte_trie::{closure, lemma_closure_of_insert, lemma_closure_of_nothing, ByteTrie};
use crate::pattern::{compile, error_text, regex_rejection, regex_source};
use regex::bytes::Regex;
use vstd::prelude::*;
use vstd::string::{StrSliceExecFns, StringExecFns};
use vstd::utf8::encode_utf8;

verus! {

/// A separator string was rejected; the field holds the offending fragment.
#[derive(Debug)]
pub struct InvalidFieldSeparatorError(pub String);

/// An index filter expression was rejected; the field holds the part of the
/// input that could not be read.
#[derive(Debug)]
pub struct InvalidIndexFiltersError(pub String);

/// A regular expression did not compile; the field holds the compiler's message.
#[derive(Debug)]
pub struct InvalidRegexFilterError(pub String);

/// What is said of a separator fragment that was rejected.
pub open spec fn invalid_field_separator_text(fragment: Seq<char>) -> Seq<char> {
    "This is not a valid field separator: "@ + fragment
}

/// What is said of the unread rest of an index filter expression.
pub open spec fn invalid_index_filters_text(rest: Seq<char>) -> Seq<char> {
    "This is not a valid list of index filters: "@ + rest
}

/// What is said of a regular expression that did not compile.
pub open spec fn invalid_regex_text(message: Seq<char>) -> Seq<char> {
    "This is not a valid regular expression:\n"@ + message
}

impl InvalidFieldSeparatorError {
    /// The error in words, for the user.
    pub fn describe(&self) -> (text: String)
        ensures
            text@ == invalid_field_separator_text(self.0@),
    {
        let mut text = String::from_str("This is not a valid field separator: ");
        text.append(self.0.as_str());
        text
    }
}

impl InvalidIndexFiltersError {
    /// The error in words, for the user.
    pub fn describe(&self) -> (text: String)
        ensures
            text@ == invalid_index_filters_text(self.0@),
    {
        let mut text = String::from_str("This is not a valid list of index filters: ");
        text.append(self.0.as_str());
        text
    }
}

impl InvalidRegexFilterError {
    /// The error in words, for the user.
    pub fn describe(&self) -> (text: String)
        ensures
            text@ == invalid_regex_text(self.0@),
    {
        let mut text = String::from_str("This is not a valid regular expression:\n");
        text.append(self.0.as_str());
        text
    }
}

// Separator strings.
//
// A separator is typed as text.  The two-character tokens `\n`, `\t`, `\r`
// and `\s` stand for a line feed, a tab, a carriage return and a space; every
// other character stands for its UTF-8 bytes.  A token is made of ASCII
// characters and no byte of a longer UTF-8 sequence is ASCII, so the text can
// be read byte by byte.
/// The byte that the escape token at `i` stands for, if one stands there.
pub open spec fn escape_at(text: Seq<u8>, i: int) -> Option<u8> {
    if 0 <= i && i + 1 < text.len() && text[i] == 0x5c {
        if text[i + 1] == 0x6e {
            Some(0x0a)
        } else if text[i + 1] == 0x74 {
            Some(0x09)
        } else if text[i + 1] == 0x72 {
            Some(0x0d)
        } else if text[i + 1] == 0x73 {
            Some(0x20)
        } else {
            None
        }
    } else {
        None
    }
}

/// The bytes that `text` denotes from position `i` on, escape tokens replaced.
pub open spec fn unescaped_from(text: Seq<u8>, i: int) -> Seq<u8>
    decreases text.len() - i,
{
    if i < 0 || i >= text.len() {
        Seq::empty()
    } else {
        match escape_at(text, i) {
            Some(byte) => seq![byte] + unescaped_from(text, i + 2),
            None => seq![text[i]] + unescaped_from(text, i + 1),
        }
    }
}

/// The separator that a string denotes.
pub open spec fn separator_of(string_representation: Seq<char>) -> Seq<u8> {
    unescaped_from(encode_utf8(string_representation), 0)
}

/// The separators that a list of strings denotes.
pub open spec fn separators_of(string_representations: Seq<String>) -> Set<Seq<u8>> {
    Set::new(
        |separator: Seq<u8>|
            exists|k: int|
                0 <= k < string_representations.len() && separator == separator_of(
                    #[trigger] string_representations[k]@,
                ),
    )
}

/// Text that is not empty denotes a separator that is not empty.
pub proof fn lemma_separator_not_empty(text: Seq<u8>)
    requires
        text.len() > 0,
    ensures
        unescaped_from(text, 0).len() > 0,
{
}

/// Replaces the escape tokens in `text`.
fn unescape(text: &[u8]) -> (bytes: Vec<u8>)
    ensures
        bytes@ == unescaped_from(text@, 0),
{
    let mut bytes: Vec<u8> = Vec::new();
    let mut i: usize = 0;
    while i < text.len()
        invariant
            i <= text@.len() + 1,
            bytes@ + unescaped_from(text@, i as int) == unescaped_from(text@, 0),
        decreases text@.len() + 1 - i,
    {
        let ghost before = bytes@;
        let mut escaped: Option<u8> = None;
        if text[i] == 0x5c && text.len() - i >= 2 {
            let code = text[i + 1];
            if code == 0x6e {
                escaped = Some(0x0a);
            } else if code == 0x74 {
                escaped = Some(0x09);
            } else if code == 0x72 {
                escaped = Some(0x0d);
            } else if code == 0x73 {
                escaped = Some(0x20);
            }
        }
        assert(escaped == escape_at(text@, i as int));
        match escaped {
            Some(byte) => {
                bytes.push(byte);
                proof {
                    assert(before.push(byte) + unescaped_from(text@, i + 2) =~= before + (seq![
                        byte,
                    ] + unescaped_from(text@, i + 2)));
                }
                i += 2;
            },
            None => {
                bytes.push(text[i]);
                proof {
                    assert(before.push(text@[i as int]) + unescaped_from(text@, i + 1) =~= before
                        + (seq![text@[i as int]] + unescaped_from(text@, i + 1)));
                }
                i += 1;
            },
        }
    }
    proof {
        assert(bytes@ + Seq::<u8>::empty() =~= bytes@);
    }
    bytes
}

/// Reads a list of separator strings into one trie.
///
/// No string is rejected: every character of a string contributes at least
/// one byte, so a string that is not empty never denotes an empty separator.
/// An empty string contributes nothing.
pub fn parse_field_separators(string_representations: &Vec<String>) -> (parsed: Result<
    ByteTrie,
    InvalidFieldSeparatorError,
>)
    ensures
        parsed is Ok,
        parsed->Ok_0@ == closure(separators_of(string_representations@)),
{
    let mut separators = ByteTrie::new();
    let mut k: usize = 0;
    proof {
        lemma_closure_of_nothing();
        assert(separators_of(string_representations@.take(0)) =~= Set::<Seq<u8>>::empty());
    }
    while k < string_representations.len()
        invariant
            k <= string_representations.len(),
            separators@ == closure(separators_of(string_representations@.take(k as int))),
        decreases string_representations.len() - k,
    {
        let text = string_representations[k].as_str().as_bytes();
        let bytes = unescape(text);
        if text.len() > 0 && bytes.len() == 0 {
            proof {
                lemma_separator_not_empty(text@);
            }
            return Err(InvalidFieldSeparatorError(string_representations[k].clone()));
        }
        separators.insert(bytes.as_slice());
        proof {
            let seen = string_representations@.take(k as int);
            let grown = string_representations@.take(k + 1);
            assert(grown[k as int] == string_representations@[k as int]);
            assert forall|separator: Seq<u8>|
                separators_of(grown).contains(separator) == separators_of(seen).insert(
                    bytes@,
                ).contains(separator) by {
                if separators_of(grown).contains(separator) {
                    let j = choose|j: int|
                        0 <= j < grown.len() && separator == separator_of(#[trigger] grown[j]@);
                    if j < k {
                        assert(seen[j] == grown[j]);
                    }
                }
                if separators_of(seen).contains(separator) {
                    let j = choose|j: int|
                        0 <= j < seen.len() && separator == separator_of(#[trigger] seen[j]@);
                    assert(seen[j] == grown[j]);
                }
            }
            assert(separators_of(grown) =~= separators_of(seen).insert(bytes@));
            lemma_closure_of_insert(separators_of(seen), bytes@);
        }
        k += 1;
    }
    proof {
        assert(string_representations@.take(k as int) =~= string_representations@);
    }
    Ok(separators)
}

/// A predicate over positions, used to select segments by index.
#[derive(Debug, Clone, Copy, PartialEq, Eq, Structural)]
pub enum IndexFilter {
    /// Positions from the first bound up to, not including, the second.
    Bounded(usize, usize),
    /// Positions from the bound upwards.
    LowerBounded(usize),
    /// Positions below the bound.
    UpperBounded(usize),
    /// The one position given.
    Exact(usize),
}

impl IndexFilter {
    /// Whether the filter selects position `i`.
    pub open spec fn matches(self, i: nat) -> bool {
        match self {
            IndexFilter::Bounded(lower, upper) => lower <= i < upper,
            IndexFilter::LowerBounded(lower) => i >= lower,
            IndexFilter::UpperBounded(upper) => i < upper,
            IndexFilter::Exact(j) => i == j,
        }
    }

    /// Whether the filter selects position `i`.
    pub fn is_match(&self, i: usize) -> (selected: bool)
        ensures
            selected == self.matches(i as nat),
    {
        match self {
            IndexFilter::Bounded(lower, upper) => i >= *lower && i < *upper,
            IndexFilter::LowerBounded(lower) => i >= *lower,
            IndexFilter::UpperBounded(upper) => i < *upper,
            IndexFilter::Exact(j) => i == *j,
        }
    }
}

/// Whether any of `filters` selects position `i`.
pub open spec fn any_matches(filters: Seq<IndexFilter>, i: nat) -> bool {
    exists|k: int| 0 <= k < filters.len() && (#[trigger] filters[k]).matches(i)
}

// The grammar of index filter expressions.
//
//     rules := rule ("," rule)*
//     rule  := digits ".." digits | digits ".." | ".." digits | digits
//
// Blanks may stand before and after the expression and around each comma.
/// A space or a tab.
pub open spec fn is_blank(c: char) -> bool {
    c == ' ' || c == '\t'
}

/// A decimal digit.
pub open spec fn is_digit(c: char) -> bool {
    '0' <= c && c <= '9'
}

/// The value of a decimal digit.
pub open spec fn digit_value(c: char) -> nat {
    (c as u32 - '0' as u32) as nat
}

/// The number that a string of decimal digits denotes.
pub open spec fn decimal(digits: Seq<char>) -> nat
    decreases digits.len(),
{
    if digits.len() == 0 {
        0
    } else {
        decimal(digits.drop_last()) * 10 + digit_value(digits.last())
    }
}

/// The first position at or after `i` that holds no blank.
pub open spec fn skip_blanks(s: Seq<char>, i: int) -> int
    decreases s.len() - i,
{
    if 0 <= i < s.len() && is_blank(s[i]) {
        skip_blanks(s, i + 1)
    } else {
        i
    }
}

/// The first position at or after `i` that holds no digit.
pub open spec fn skip_digits(s: Seq<char>, i: int) -> int
    decreases s.len() - i,
{
    if 0 <= i < s.len() && is_digit(s[i]) {
        skip_digits(s, i + 1)
    } else {
        i
    }
}

/// The number that starts at `i`, with the position after it: the longest run
/// of digits there, if it is not empty and its value fits a `usize`.
pub open spec fn number_at(s: Seq<char>, i: int) -> Option<(usize, int)> {
    let j = skip_digits(s, i);
    if i < j && decimal(s.subrange(i, j)) <= usize::MAX {
        Some((decimal(s.subrange(i, j)) as usize, j))
    } else {
        None
    }
}

/// Whether `..` stands at `i`.
pub open spec fn dots_at(s: Seq<char>, i: int) -> bool {
    0 <= i && i + 1 < s.len() && s[i] == '.' && s[i + 1] == '.'
}

/// `digits ".." digits` at `i`.
pub open spec fn bounded_at(s: Seq<char>, i: int) -> Option<(IndexFilter, int)> {
    match number_at(s, i) {
        Some((lower, j)) if dots_at(s, j) => match number_at(s, j + 2) {
            Some((upper, k)) => Some((IndexFilter::Bounded(lower, upper), k)),
            None => None,
        },
        _ => None,
    }
}

/// `digits ".."` at `i`.
pub open spec fn lower_bounded_at(s: Seq<char>, i: int) -> Option<(IndexFilter, int)> {
    match number_at(s, i) {
        Some((lower, j)) if dots_at(s, j) => Some((IndexFilter::LowerBounded(lower), j + 2)),
        _ => None,
    }
}

/// `".." digits` at `i`.
pub open spec fn upper_bounded_at(s: Seq<char>, i: int) -> Option<(IndexFilter, int)> {
    if dots_at(s, i) {
        match number_at(s, i + 2) {
            Some((upper, k)) => Some((IndexFilter::UpperBounded(upper), k)),
            None => None,
        }
    } else {
        None
    }
}

/// `digits` at `i`.
pub open spec fn exact_at(s: Seq<char>, i: int) -> Option<(IndexFilter, int)> {
    match number_at(s, i) {
        Some((j, k)) => Some((IndexFilter::Exact(j), k)),
        None => None,
    }
}

/// The rule that starts at `i`, with the position after it.  The four forms
/// are tried in the order bounded, lower bounded, upper bounded, exact.
pub open spec fn rule_at(s: Seq<char>, i: int) -> Option<(IndexFilter, int)> {
    if bounded_at(s, i) is Some {
        bounded_at(s, i)
    } else if lower_bounded_at(s, i) is Some {
        lower_bounded_at(s, i)
    } else if upper_bounded_at(s, i) is Some {
        upper_bounded_at(s, i)
    } else {
        exact_at(s, i)
    }
}

/// The rules that follow a rule which ended at `i`, each behind its comma,
/// with the position after the last of them.
pub open spec fn more_rules_at(s: Seq<char>, i: int) -> (Seq<IndexFilter>, int)
    decreases s.len() - i,
{
    let comma = skip_blanks(s, i);
    if 0 <= i <= comma < s.len() && s[comma] == ',' {
        match rule_at(s, skip_blanks(s, comma + 1)) {
            Some((rule, end)) if comma < end <= s.len() => {
                let (rest, last) = more_rules_at(s, end);
                (seq![rule] + rest, last)
            },
            _ => (Seq::empty(), i),
        }
    } else {
        (Seq::empty(), i)
    }
}

/// The rules at the start of `s`, with the position after the last of them.
pub open spec fn rules_at_start(s: Seq<char>) -> (Seq<IndexFilter>, int) {
    let first = skip_blanks(s, 0);
    match rule_at(s, first) {
        Some((rule, end)) => {
            let (rest, last) = more_rules_at(s, end);
            (seq![rule] + rest, last)
        },
        None => (Seq::empty(), first),
    }
}

/// What an index filter expression denotes: its rules in order, or, where
/// something other than blanks follows the last rule that can be read, that
/// unread rest of the input.
pub open spec fn index_filters_of(s: Seq<char>) -> Result<Seq<IndexFilter>, Seq<char>> {
    let (rules, end) = rules_at_start(s);
    let stop = skip_blanks(s, end);
    if stop >= s.len() {
        Ok(rules)
    } else {
        Err(s.subrange(stop, s.len() as int))
    }
}

/// The characters of `s`.
fn chars_of(s: &str) -> (chars: Vec<char>)
    ensures
        chars@ == s@,
{
    let mut chars: Vec<char> = Vec::new();
    for c in it: s.chars()
        invariant
            chars@ == it.seq().take(it.index() as int),
            it.seq() == s@,
    {
        chars.push(c);
    }
    chars
}

fn scan_blanks(chars: &Vec<char>, start: usize) -> (end: usize)
    requires
        start <= chars.len(),
    ensures
        end == skip_blanks(chars@, start as int),
        start <= end <= chars.len(),
{
    let mut end = start;
    while end < chars.len() && (chars[end] == ' ' || chars[end] == '\t')
        invariant
            start <= end <= chars.len(),
            skip_blanks(chars@, start as int) == skip_blanks(chars@, end as int),
        decreases chars.len() - end,
    {
        end += 1;
    }
    end
}

fn scan_number(chars: &Vec<char>, start: usize) -> (found: Option<(usize, usize)>)
    requires
        start <= chars.len(),
    ensures
        match found {
            Some((value, end)) => number_at(chars@, start as int) == Some((value, end as int))
                && start < end <= chars.len(),
            None => number_at(chars@, start as int) is None,
        },
{
    let mut end = start;
    let mut value: usize = 0;
    let mut fits = true;
    while end < chars.len() && chars[end] >= '0' && chars[end] <= '9'
        invariant
            start <= end <= chars.len(),
            skip_digits(chars@, start as int) == skip_digits(chars@, end as int),
            fits ==> value == decimal(chars@.subrange(start as int, end as int)),
            !fits ==> decimal(chars@.subrange(start as int, end as int)) > usize::MAX,
        decreases chars.len() - end,
    {
        let digit = (chars[end] as u32 - '0' as u32) as usize;
        proof {
            let longer = chars@.subrange(start as int, end + 1);
            assert(longer.drop_last() =~= chars@.subrange(start as int, end as int));
            assert(longer.last() == chars@[end as int]);
        }
        if fits && value <= (usize::MAX - digit) / 10 {
            value = value * 10 + digit;
        } else {
            fits = false;
        }
        end += 1;
    }
    if fits && end > start {
        Some((value, end))
    } else {
        None
    }
}

fn dots_stand_at(chars: &Vec<char>, i: usize) -> (found: bool)
    requires
        i <= chars.len(),
    ensures
        found == dots_at(chars@, i as int),
{
    i < chars.len() && chars.len() - i >= 2 && chars[i] == '.' && chars[i + 1] == '.'
}

fn scan_rule(chars: &Vec<char>, start: usize) -> (found: Option<(IndexFilter, usize)>)
    requires
        start <= chars.len(),
    ensures
        match found {
            Some((rule, end)) => rule_at(chars@, start as int) == Some((rule, end as int))
                && start < end <= chars.len(),
            None => rule_at(chars@, start as int) is None,
        },
{
    match scan_number(chars, start) {
        Some((first, after)) => {
            if dots_stand_at(chars, after) {
                match scan_number(chars, after + 2) {
                    Some((second, end)) => Some((IndexFilter::Bounded(first, second), end)),
                    None => Some((IndexFilter::LowerBounded(first), after + 2)),
                }
            } else {
                Some((IndexFilter::Exact(first), after))
            }
        },
        None => {
            if dots_stand_at(chars, start) {
                match scan_number(chars, start + 2) {
                    Some((bound, end)) => Some((IndexFilter::UpperBounded(bound), end)),
                    None => None,
                }
            } else {
                None
            }
        },
    }
}

/// Reads an index filter expression such as `1, 5..`.
///
/// The four forms of a rule are `4` (that position), `6..10` (from 6 up to,
/// not including, 10), `5..` (from 5 upwards) and `..96` (below 96).  Rules
/// are separated by commas; blanks may surround the commas and the whole
/// expression.  Input that is empty or blank gives no rules.  Anything else
/// that is left over after the last rule is an error, which carries it.
pub fn parse_index_filters(string_representation: &str) -> (parsed: Result<
    Vec<IndexFilter>,
    InvalidIndexFiltersError,
>)
    ensures
        match parsed {
            Ok(filters) => index_filters_of(string_representation@) == Ok::<
                Seq<IndexFilter>,
                Seq<char>,
            >(filters@),
            Err(error) => index_filters_of(string_representation@) == Err::<
                Seq<IndexFilter>,
                Seq<char>,
            >(error.0@),
        },
{
    let chars = chars_of(string_representation);
    let mut filters: Vec<IndexFilter> = Vec::new();
    let first = scan_blanks(&chars, 0);
    let mut end = first;
    match scan_rule(&chars, first) {
        None => {},
        Some((rule, after)) => {
            filters.push(rule);
            end = after;
            let ghost head = seq![rule];
            let mut reading = true;
            while reading
                invariant
                    after <= end <= chars.len(),
                    chars@ == string_representation@,
                    reading ==> ({
                        let (rest, last) = more_rules_at(chars@, end as int);
                        more_rules_at(chars@, after as int) == (filters@.skip(1) + rest, last)
                    }),
                    !reading ==> more_rules_at(chars@, after as int) == (
                        filters@.skip(1),
                        end as int,
                    ),
                    filters@.len() >= 1,
                    filters@[0] == rule,
                decreases chars.len() - end + (if reading { 1int } else { 0int }),
            {
                let comma = scan_blanks(&chars, end);
                if comma < chars.len() && chars[comma] == ',' {
                    let start = scan_blanks(&chars, comma + 1);
                    match scan_rule(&chars, start) {
                        Some((next, stop)) => {
                            proof {
                                let (rest, last) = more_rules_at(chars@, stop as int);
                                assert(filters@.skip(1) + (seq![next] + rest) =~= filters@.push(
                                    next,
                                ).skip(1) + rest);
                            }
                            filters.push(next);
                            end = stop;
                        },
                        None => {
                            proof {
                                assert(filters@.skip(1) + Seq::<IndexFilter>::empty()
                                    =~= filters@.skip(1));
                            }
                            reading = false;
                        },
                    }
                } else {
                    proof {
                        assert(filters@.skip(1) + Seq::<IndexFilter>::empty() =~= filters@.skip(
                            1,
                        ));
                    }
                    reading = false;
                }
            }
            proof {
                assert(seq![rule] + filters@.skip(1) =~= filters@);
            }
        },
    }
    let stop = scan_blanks(&chars, end);
    if stop >= chars.len() {
        Ok(filters)
    } else {
        let tail = string_representation.substring_char(stop, chars.len());
        Err(InvalidIndexFiltersError(tail.to_owned()))
    }
}

/// Compiles a regular expression over bytes.
pub fn parse_regex_filter(string_representation: &str) -> (parsed: Result<
    Regex,
    InvalidRegexFilterError,
>)
    ensures
        match parsed {
            Ok(re) => regex_rejection(string_representation@) is None && regex_source(re)
                == string_representation@,
            Err(error) => regex_rejection(string_representation@) == Some(error.0@),
        },
{
    match compile(string_representation) {
        Ok(re) => Ok(re),
        Err(error) => Err(InvalidRegexFilterError(error_text(&error))),
    }
}

} // verus!
