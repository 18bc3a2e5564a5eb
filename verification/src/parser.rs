//! The transformation with one call per step: read a separator, split, read
//! index rules, keep by index, read a regex rule, keep by regex.
//!
//! The filters apply one after the other here, and the index rules see the
//! positions that the splitter gave.

use crate::byte_trie::{closure, prefixes, ByteTrie};
use crate::parsers::{
    index_filters_of, parse_field_separators, parse_index_filters, parse_regex_filter,
    separator_of, IndexFilter,
};
use crate::pattern::{regex_rejection, regex_source};
use crate::transformers;
use crate::transformers::{
    kept, only_index_filters, only_regex_filter, split_literal,
};
use crate::views::{byte_strings, byte_tables};
use regex::bytes::Regex;
use vstd::prelude::*;

verus! {

/// Why a piece of user input was rejected.
#[derive(Debug)]
pub enum TransformationError {
    /// A separator string was rejected; the field holds the offending fragment.
    InvalidFieldSeparator(String),
    /// Index rules were rejected; the field holds the unread rest of the input.
    InvalidIndexRules(String),
    /// A regular expression did not compile; the field holds the compiler's message.
    InvalidRegexRule(String),
}

/// A predicate over positions, used to select segments by index.
#[derive(Debug, Clone, Copy, PartialEq, Eq, Structural)]
pub enum IndexRule {
    /// Positions from the first bound up to, not including, the second.
    Bounded(usize, usize),
    /// Positions from the bound upwards.
    LowerBounded(usize),
    /// Positions below the bound.
    UpperBounded(usize),
    /// The one position given.
    Exact(usize),
}

impl IndexRule {
    /// The same predicate as an index filter.
    pub open spec fn as_filter(self) -> IndexFilter {
        match self {
            IndexRule::Bounded(lower, upper) => IndexFilter::Bounded(lower, upper),
            IndexRule::LowerBounded(lower) => IndexFilter::LowerBounded(lower),
            IndexRule::UpperBounded(upper) => IndexFilter::UpperBounded(upper),
            IndexRule::Exact(j) => IndexFilter::Exact(j),
        }
    }

    /// Whether the rule selects position `i`.
    pub open spec fn matches(self, i: nat) -> bool {
        match self {
            IndexRule::Bounded(lower, upper) => lower <= i < upper,
            IndexRule::LowerBounded(lower) => i >= lower,
            IndexRule::UpperBounded(upper) => i < upper,
            IndexRule::Exact(j) => i == j,
        }
    }

    /// Whether the rule selects position `i`.
    pub fn is_match(&self, i: usize) -> (selected: bool)
        ensures
            selected == self.matches(i as nat),
            selected == self.as_filter().matches(i as nat),
    {
        match self {
            IndexRule::Bounded(lower, upper) => i >= *lower && i < *upper,
            IndexRule::LowerBounded(lower) => i >= *lower,
            IndexRule::UpperBounded(upper) => i < *upper,
            IndexRule::Exact(j) => i == *j,
        }
    }

    fn to_filter(&self) -> (filter: IndexFilter)
        ensures
            filter == self.as_filter(),
    {
        match self {
            IndexRule::Bounded(lower, upper) => IndexFilter::Bounded(*lower, *upper),
            IndexRule::LowerBounded(lower) => IndexFilter::LowerBounded(*lower),
            IndexRule::UpperBounded(upper) => IndexFilter::UpperBounded(*upper),
            IndexRule::Exact(j) => IndexFilter::Exact(*j),
        }
    }

    fn of_filter(filter: &IndexFilter) -> (rule: IndexRule)
        ensures
            rule.as_filter() == *filter,
    {
        match filter {
            IndexFilter::Bounded(lower, upper) => IndexRule::Bounded(*lower, *upper),
            IndexFilter::LowerBounded(lower) => IndexRule::LowerBounded(*lower),
            IndexFilter::UpperBounded(upper) => IndexRule::UpperBounded(*upper),
            IndexFilter::Exact(j) => IndexRule::Exact(*j),
        }
    }
}

/// The index filters that say what `rules` say.
pub open spec fn as_filters(rules: Seq<IndexRule>) -> Seq<IndexFilter> {
    rules.map_values(|rule: IndexRule| rule.as_filter())
}

fn to_filters(rules: &Vec<IndexRule>) -> (filters: Vec<IndexFilter>)
    ensures
        filters@ == as_filters(rules@),
{
    let mut filters: Vec<IndexFilter> = Vec::new();
    let mut i: usize = 0;
    while i < rules.len()
        invariant
            i <= rules.len(),
            filters@ == as_filters(rules@.take(i as int)),
        decreases rules.len() - i,
    {
        filters.push(rules[i].to_filter());
        assert(filters@ =~= as_filters(rules@.take(i + 1)));
        i += 1;
    }
    assert(rules@.take(i as int) =~= rules@);
    filters
}

/// Reads one separator string into a trie of its own.  No string is rejected.
pub fn parse_field_separator(string_representation: &str) -> (parsed: Result<
    ByteTrie,
    TransformationError,
>)
    ensures
        parsed is Ok,
        parsed->Ok_0@ == prefixes(separator_of(string_representation@)),
{
    let list = vec![string_representation.to_owned()];
    match parse_field_separators(&list) {
        Ok(separators) => {
            proof {
                let denoted = separator_of(string_representation@);
                let stored = crate::parsers::separators_of(list@);
                assert(list@[0]@ == string_representation@);
                assert(stored.contains(denoted));
                assert(closure(stored) =~= prefixes(denoted));
            }
            Ok(separators)
        },
        Err(error) => Err(TransformationError::InvalidFieldSeparator(error.0)),
    }
}

/// Splits `data` at the literal separators.
pub fn split(separators: &ByteTrie, data: Vec<u8>) -> (segments: Vec<Vec<u8>>)
    ensures
        byte_strings(segments@) == split_literal(separators@, data@),
        forall|i: int| 0 <= i < segments.len() ==> (#[trigger] segments[i]).len() > 0,
{
    transformers::split(separators, &data)
}

/// Reads index rules such as `1, 5..`.
pub fn parse_index_rules(string_representation: &str) -> (parsed: Result<
    Vec<IndexRule>,
    TransformationError,
>)
    ensures
        match parsed {
            Ok(rules) => index_filters_of(string_representation@) == Ok::<
                Seq<IndexFilter>,
                Seq<char>,
            >(as_filters(rules@)),
            Err(TransformationError::InvalidIndexRules(rest)) => index_filters_of(
                string_representation@,
            ) == Err::<Seq<IndexFilter>, Seq<char>>(rest@),
            Err(_) => false,
        },
{
    match parse_index_filters(string_representation) {
        Ok(filters) => {
            let mut rules: Vec<IndexRule> = Vec::new();
            let mut i: usize = 0;
            while i < filters.len()
                invariant
                    i <= filters.len(),
                    as_filters(rules@) == filters@.take(i as int),
                decreases filters.len() - i,
            {
                let ghost before = as_filters(rules@);
                let rule = IndexRule::of_filter(&filters[i]);
                rules.push(rule);
                assert(as_filters(rules@) =~= before.push(rule.as_filter()));
                assert(filters@.take(i + 1) =~= filters@.take(i as int).push(filters@[i as int]));
                i += 1;
            }
            assert(filters@.take(i as int) =~= filters@);
            Ok(rules)
        },
        Err(error) => Err(TransformationError::InvalidIndexRules(error.0)),
    }
}

/// Keeps the segments of `data` whose position one of `rules` selects.
pub fn keep_index_matches(rules: &Vec<IndexRule>, data: Vec<Vec<u8>>) -> (result: Vec<Vec<u8>>)
    ensures
        byte_strings(result@) == kept(only_index_filters(as_filters(rules@)), byte_strings(data@)),
{
    let filters = to_filters(rules);
    transformers::keep_index_matches(&filters, data)
}

/// Compiles a regular expression over bytes.
pub fn parse_regex_rule(string_representation: &str) -> (parsed: Result<
    Regex,
    TransformationError,
>)
    ensures
        match parsed {
            Ok(re) => regex_rejection(string_representation@) is None && regex_source(re)
                == string_representation@,
            Err(TransformationError::InvalidRegexRule(message)) => regex_rejection(
                string_representation@,
            ) == Some(message@),
            Err(_) => false,
        },
{
    match parse_regex_filter(string_representation) {
        Ok(re) => Ok(re),
        Err(error) => Err(TransformationError::InvalidRegexRule(error.0)),
    }
}

/// Keeps the segments of `data` that `regex` matches.
pub fn keep_regex_matches(regex: &Regex, data: Vec<Vec<u8>>) -> (result: Vec<Vec<u8>>)
    ensures
        byte_strings(result@) == kept(only_regex_filter(*regex), byte_strings(data@)),
{
    transformers::keep_regex_matches(regex, data)
}

/// What one dimension makes of `data`: the segments between the literal
/// separators, or `data` as one segment where there are none; of those, the
/// ones at the positions that the index rules select; of those, the ones
/// that the expression matches.
pub open spec fn transformed_1d(
    separators: Option<Set<Seq<u8>>>,
    regex: Option<Regex>,
    index_rules: Option<Seq<IndexRule>>,
    data: Seq<u8>,
) -> Seq<Seq<u8>> {
    let segments = match separators {
        None => seq![data],
        Some(paths) => split_literal(paths, data),
    };
    let by_index = match index_rules {
        None => segments,
        Some(rules) => kept(only_index_filters(as_filters(rules)), segments),
    };
    match regex {
        None => by_index,
        Some(re) => kept(only_regex_filter(re), by_index),
    }
}

/// The stored paths of a trie that may be absent.
pub open spec fn paths_of(separators: Option<ByteTrie>) -> Option<Set<Seq<u8>>> {
    match separators {
        Some(trie) => Some(trie@),
        None => None,
    }
}

/// The rules of a list that may be absent.
pub open spec fn rules_of(index_rules: Option<Vec<IndexRule>>) -> Option<Seq<IndexRule>> {
    match index_rules {
        Some(rules) => Some(rules@),
        None => None,
    }
}

/// Splits `data` and filters the segments, by index and then by expression.
pub fn transform_1d(
    separators: &Option<ByteTrie>,
    regex: &Option<Regex>,
    index_rules: &Option<Vec<IndexRule>>,
    data: Vec<u8>,
) -> (result: Vec<Vec<u8>>)
    ensures
        byte_strings(result@) == transformed_1d(
            paths_of(*separators),
            *regex,
            rules_of(*index_rules),
            data@,
        ),
{
    let mut result = match separators {
        None => {
            let whole = vec![data];
            assert(byte_strings(whole@) =~= seq![data@]);
            whole
        },
        Some(separators) => split(separators, data),
    };
    if let Some(index_rules) = index_rules {
        result = keep_index_matches(index_rules, result);
    }
    if let Some(regex) = regex {
        result = keep_regex_matches(regex, result);
    }
    result
}

/// Splits `data` into lines and each line into cells.
pub fn transform_2d(
    line_separators: &Option<ByteTrie>,
    line_regex: &Option<Regex>,
    line_index_rules: &Option<Vec<IndexRule>>,
    row_separators: &Option<ByteTrie>,
    row_regex: &Option<Regex>,
    row_index_rules: &Option<Vec<IndexRule>>,
    data: Vec<u8>,
) -> (table: Vec<Vec<Vec<u8>>>)
    ensures
        byte_tables(table@) == transformed_1d(
            paths_of(*line_separators),
            *line_regex,
            rules_of(*line_index_rules),
            data@,
        ).map_values(
            |line: Seq<u8>|
                transformed_1d(
                    paths_of(*row_separators),
                    *row_regex,
                    rules_of(*row_index_rules),
                    line,
                ),
        ),
{
    let lines = transform_1d(line_separators, line_regex, line_index_rules, data);
    let ghost cut = |line: Seq<u8>|
        transformed_1d(paths_of(*row_separators), *row_regex, rules_of(*row_index_rules), line);
    let ghost given = byte_strings(lines@);
    let mut table: Vec<Vec<Vec<u8>>> = Vec::new();
    let mut i: usize = 0;
    assert(byte_tables(table@) =~= given.take(0).map_values(cut));
    while i < lines.len()
        invariant
            i <= lines.len(),
            given == byte_strings(lines@),
            cut == |line: Seq<u8>|
                transformed_1d(
                    paths_of(*row_separators),
                    *row_regex,
                    rules_of(*row_index_rules),
                    line,
                ),
            byte_tables(table@) == given.take(i as int).map_values(cut),
        decreases lines.len() - i,
    {
        let ghost done = byte_tables(table@);
        let cells = transform_1d(row_separators, row_regex, row_index_rules, lines[i].clone());
        table.push(cells);
        assert(byte_tables(table@) =~= done.push(byte_strings(cells@)));
        assert(given.take(i + 1).map_values(cut) =~= done.push(cut(given[i as int])));
        i += 1;
    }
    assert(given.take(i as int) =~= given);
    table
}

} // verus!
