//! Splitting a byte buffer into segments and choosing which of them to keep.

use crate::byte_trie::{membership_in, ByteTrie, Membership};
use crate::parsers::{any_matches, IndexFilter};
use crate::pattern::{is_match, regex_is_match, regex_split};
use crate::pattern;
use crate::csv_output::{
    csv_text, lemma_csv_reads_back, parsed_csv, write_table, CsvAssemblyError,
};
use crate::views::{byte_strings, byte_tables};
use regex::bytes::Regex;
use vstd::prelude::*;

verus! {

/// How the index filters and the regex filter combine where both are set.
#[derive(Debug, Clone, Copy, PartialEq, Eq, Structural)]
pub enum Combination {
    /// A segment is kept if both filters select it.
    And,
    /// A segment is kept if either filter selects it.
    Or,
}

/// The options of one dimension: how to split, and what to keep.
#[derive(Debug)]
pub struct Options {
    /// Literal separators.
    pub separators: Option<ByteTrie>,
    /// A separator given as a regular expression.
    pub regex_separator: Option<Regex>,
    /// Keeps the segments that the expression matches.
    pub regex_filter: Option<Regex>,
    /// Keeps the segments at the selected positions.
    pub index_filters: Option<Vec<IndexFilter>>,
    /// How the two filters combine.
    pub filters_combination: Option<Combination>,
}

/// The options of one dimension as mathematical values.
pub struct OptionsView {
    pub separators: Option<Set<Seq<u8>>>,
    pub regex_separator: Option<Regex>,
    pub regex_filter: Option<Regex>,
    pub index_filters: Option<Seq<IndexFilter>>,
    pub filters_combination: Option<Combination>,
}

impl View for Options {
    type V = OptionsView;

    open spec fn view(&self) -> OptionsView {
        OptionsView {
            separators: match self.separators {
                Some(trie) => Some(trie@),
                None => None,
            },
            regex_separator: self.regex_separator,
            regex_filter: self.regex_filter,
            index_filters: match self.index_filters {
                Some(filters) => Some(filters@),
                None => None,
            },
            filters_combination: self.filters_combination,
        }
    }
}

impl Options {
    /// Options that split nowhere and keep everything.
    pub fn default() -> (options: Options)
        ensures
            options@ == (OptionsView {
                separators: None,
                regex_separator: None,
                regex_filter: None,
                index_filters: None,
                filters_combination: None,
            }),
    {
        Options {
            separators: None,
            regex_separator: None,
            regex_filter: None,
            index_filters: None,
            filters_combination: None,
        }
    }
}

// The literal splitter.
//
// The buffer is read once from left to right.  Bytes that may begin a
// separator are held back as a candidate.  Once the candidate is a complete
// separator the segment before it is emitted; once it cannot become a
// separator any more its bytes go to the segment after all.
/// The state of the literal splitter between two bytes.
pub struct Scan {
    /// The segments emitted so far.
    pub segments: Seq<Seq<u8>>,
    /// The segment that is being read.
    pub current: Seq<u8>,
    /// The bytes held back because they may begin a separator.
    pub candidate: Seq<u8>,
}

/// The state of the splitter after it has read `byte` in state `state`.
pub open spec fn scan_step(paths: Set<Seq<u8>>, state: Scan, byte: u8) -> Scan {
    let candidate = state.candidate.push(byte);
    match membership_in(paths, candidate) {
        Membership::NotIncluded => Scan {
            segments: state.segments,
            current: state.current + candidate,
            candidate: Seq::empty(),
        },
        Membership::Included => Scan {
            segments: state.segments,
            current: state.current,
            candidate,
        },
        Membership::IncludedAndTerminal => Scan {
            segments: if state.current.len() > 0 {
                state.segments.push(state.current)
            } else {
                state.segments
            },
            current: Seq::empty(),
            candidate: Seq::empty(),
        },
    }
}

/// The state of the splitter after it has read all of `data`.
pub open spec fn scan(paths: Set<Seq<u8>>, data: Seq<u8>) -> Scan
    decreases data.len(),
{
    if data.len() == 0 {
        Scan { segments: Seq::empty(), current: Seq::empty(), candidate: Seq::empty() }
    } else {
        scan_step(paths, scan(paths, data.drop_last()), data.last())
    }
}

/// The segments of `data` between the separators stored in `paths`.  A
/// candidate that is still held back when the data ends belongs to no segment.
pub open spec fn split_literal(paths: Set<Seq<u8>>, data: Seq<u8>) -> Seq<Seq<u8>> {
    let end = scan(paths, data);
    if end.current.len() > 0 {
        end.segments.push(end.current)
    } else {
        end.segments
    }
}

/// No segment that the splitter has emitted is empty.
pub proof fn lemma_scan_segments_not_empty(paths: Set<Seq<u8>>, data: Seq<u8>)
    ensures
        forall|i: int|
            0 <= i < scan(paths, data).segments.len() ==> (#[trigger] scan(
                paths,
                data,
            ).segments[i]).len() > 0,
    decreases data.len(),
{
    if data.len() > 0 {
        lemma_scan_segments_not_empty(paths, data.drop_last());
        let before = scan(paths, data.drop_last());
        let after = scan_step(paths, before, data.last());
        assert forall|i: int| 0 <= i < after.segments.len() implies (
        #[trigger] after.segments[i]).len() > 0 by {
            if i < before.segments.len() {
                assert(after.segments[i] == before.segments[i]);
            }
        }
    }
}

/// The literal splitter emits no empty segment.
pub proof fn lemma_split_literal_not_empty(paths: Set<Seq<u8>>, data: Seq<u8>)
    ensures
        forall|i: int|
            0 <= i < split_literal(paths, data).len() ==> (#[trigger] split_literal(
                paths,
                data,
            )[i]).len() > 0,
{
    lemma_scan_segments_not_empty(paths, data);
}

// Nothing is lost between the segments.
/// `gaps[0] + segments[0] + gaps[1] + ... + segments[n - 1] + gaps[n]`: the
/// segments with a gap before each and one more gap after the last.
pub open spec fn interleaved(gaps: Seq<Seq<u8>>, segments: Seq<Seq<u8>>) -> Seq<u8>
    decreases segments.len(),
{
    if gaps.len() == 0 {
        Seq::empty()
    } else if segments.len() == 0 {
        gaps.last()
    } else {
        interleaved(gaps.drop_last(), segments.drop_last()) + segments.last() + gaps.last()
    }
}

/// Whether `parts` are complete separators that make up `gap` when they are
/// put one after the other.
pub open spec fn made_of_separators(paths: Set<Seq<u8>>, parts: Seq<Seq<u8>>, gap: Seq<u8>) -> bool {
    &&& parts.flatten() == gap
    &&& forall|j: int|
        0 <= j < parts.len() ==> membership_in(paths, #[trigger] parts[j])
            == Membership::IncludedAndTerminal
}

/// Whether `gap` is a run of complete separators; the empty run counts.
pub open spec fn is_separator_run(paths: Set<Seq<u8>>, gap: Seq<u8>) -> bool {
    exists|parts: Seq<Seq<u8>>| #[trigger] made_of_separators(paths, parts, gap)
}

/// Whether `gaps` and `pending` say where every byte of `data` that is in
/// none of `segments` has gone: `data` is the segments with a run of
/// separators before, between and after them, followed by `pending`, which
/// is the candidate that was still held back when the data ended.  The runs
/// between two segments are not empty.
pub open spec fn accounts_for(
    paths: Set<Seq<u8>>,
    data: Seq<u8>,
    segments: Seq<Seq<u8>>,
    gaps: Seq<Seq<u8>>,
    pending: Seq<u8>,
) -> bool {
    &&& gaps.len() == segments.len() + 1
    &&& forall|i: int| 0 <= i < gaps.len() ==> is_separator_run(paths, #[trigger] gaps[i])
    &&& forall|i: int| 0 < i < segments.len() ==> (#[trigger] gaps[i]).len() > 0
    &&& pending.len() == 0 || membership_in(paths, pending) == Membership::Included
    &&& data == interleaved(gaps, segments) + pending
}

/// The gaps that the splitter has passed once it has read all of `data`.
spec fn scan_gaps(paths: Set<Seq<u8>>, data: Seq<u8>) -> Seq<Seq<u8>>
    decreases data.len(),
{
    if data.len() == 0 {
        seq![Seq::empty()]
    } else {
        let before = scan(paths, data.drop_last());
        let gaps = scan_gaps(paths, data.drop_last());
        let candidate = before.candidate.push(data.last());
        if membership_in(paths, candidate) == Membership::IncludedAndTerminal {
            if before.current.len() > 0 {
                gaps.push(candidate)
            } else {
                gaps.drop_last().push(gaps.last() + candidate)
            }
        } else {
            gaps
        }
    }
}

/// What holds of the splitter's state and the gaps it has passed.
spec fn scan_accounts(paths: Set<Seq<u8>>, data: Seq<u8>) -> bool {
    let state = scan(paths, data);
    let gaps = scan_gaps(paths, data);
    &&& gaps.len() == state.segments.len() + 1
    &&& forall|i: int| 0 <= i < gaps.len() ==> is_separator_run(paths, #[trigger] gaps[i])
    &&& forall|i: int| 0 < i < gaps.len() ==> (#[trigger] gaps[i]).len() > 0
    &&& state.candidate.len() == 0 || membership_in(paths, state.candidate)
        == Membership::Included
    &&& data == interleaved(gaps, state.segments) + state.current + state.candidate
}

proof fn lemma_run_extended(paths: Set<Seq<u8>>, gap: Seq<u8>, separator: Seq<u8>)
    requires
        is_separator_run(paths, gap),
        membership_in(paths, separator) == Membership::IncludedAndTerminal,
    ensures
        is_separator_run(paths, gap + separator),
{
    let parts = choose|parts: Seq<Seq<u8>>| #[trigger] made_of_separators(paths, parts, gap);
    parts.lemma_flatten_push(separator);
    assert(made_of_separators(paths, parts.push(separator), gap + separator));
}

proof fn lemma_empty_run(paths: Set<Seq<u8>>)
    ensures
        is_separator_run(paths, Seq::<u8>::empty()),
{
    assert(made_of_separators(paths, Seq::<Seq<u8>>::empty(), Seq::<u8>::empty()));
}

proof fn lemma_interleaved_last_gap(gaps: Seq<Seq<u8>>, segments: Seq<Seq<u8>>, more: Seq<u8>)
    requires
        gaps.len() == segments.len() + 1,
    ensures
        interleaved(gaps.drop_last().push(gaps.last() + more), segments) == interleaved(
            gaps,
            segments,
        ) + more,
{
    let longer = gaps.drop_last().push(gaps.last() + more);
    assert(longer.drop_last() =~= gaps.drop_last());
    assert(longer.last() == gaps.last() + more);
    assert(interleaved(longer, segments) =~= interleaved(gaps, segments) + more);
}

proof fn lemma_interleaved_push(
    gaps: Seq<Seq<u8>>,
    segments: Seq<Seq<u8>>,
    segment: Seq<u8>,
    gap: Seq<u8>,
)
    requires
        gaps.len() == segments.len() + 1,
    ensures
        interleaved(gaps.push(gap), segments.push(segment)) == interleaved(gaps, segments)
            + segment + gap,
{
    assert(gaps.push(gap).drop_last() =~= gaps);
    assert(segments.push(segment).drop_last() =~= segments);
}

proof fn lemma_scan_accounts(paths: Set<Seq<u8>>, data: Seq<u8>)
    ensures
        scan_accounts(paths, data),
    decreases data.len(),
{
    if data.len() == 0 {
        lemma_empty_run(paths);
        let gaps = scan_gaps(paths, data);
        assert(gaps[0] == Seq::<u8>::empty());
        assert(interleaved(gaps, Seq::<Seq<u8>>::empty()) == Seq::<u8>::empty());
        assert(data =~= Seq::<u8>::empty() + Seq::<u8>::empty() + Seq::<u8>::empty());
    } else {
        let shorter = data.drop_last();
        lemma_scan_accounts(paths, shorter);
        let before = scan(paths, shorter);
        let old_gaps = scan_gaps(paths, shorter);
        let byte = data.last();
        let candidate = before.candidate.push(byte);
        let state = scan(paths, data);
        let gaps = scan_gaps(paths, data);
        let read = interleaved(old_gaps, before.segments);
        assert(data =~= shorter.push(byte));
        assert(data =~= read + before.current + candidate);
        match membership_in(paths, candidate) {
            Membership::NotIncluded => {
                assert(data =~= interleaved(gaps, state.segments) + state.current
                    + state.candidate);
            },
            Membership::Included => {
                assert(data =~= interleaved(gaps, state.segments) + state.current
                    + state.candidate);
            },
            Membership::IncludedAndTerminal => {
                if before.current.len() > 0 {
                    lemma_interleaved_push(old_gaps, before.segments, before.current, candidate);
                    lemma_empty_run(paths);
                    lemma_run_extended(paths, Seq::<u8>::empty(), candidate);
                    assert(Seq::<u8>::empty() + candidate =~= candidate);
                    assert forall|i: int| 0 <= i < gaps.len() implies is_separator_run(
                        paths,
                        #[trigger] gaps[i],
                    ) by {
                        if i < old_gaps.len() {
                            assert(gaps[i] == old_gaps[i]);
                        }
                    }
                    assert forall|i: int| 0 < i < gaps.len() implies (#[trigger] gaps[i]).len()
                        > 0 by {
                        if i < old_gaps.len() {
                            assert(gaps[i] == old_gaps[i]);
                        }
                    }
                    assert(data =~= interleaved(gaps, state.segments) + state.current
                        + state.candidate);
                } else {
                    lemma_interleaved_last_gap(old_gaps, before.segments, candidate);
                    lemma_run_extended(paths, old_gaps.last(), candidate);
                    assert forall|i: int| 0 <= i < gaps.len() implies is_separator_run(
                        paths,
                        #[trigger] gaps[i],
                    ) by {
                        if i < old_gaps.len() - 1 {
                            assert(gaps[i] == old_gaps[i]);
                        }
                    }
                    assert forall|i: int| 0 < i < gaps.len() implies (#[trigger] gaps[i]).len()
                        > 0 by {
                        if i < old_gaps.len() - 1 {
                            assert(gaps[i] == old_gaps[i]);
                        }
                    }
                    assert(before.current =~= Seq::<u8>::empty());
                    assert(data =~= interleaved(gaps, state.segments) + state.current
                        + state.candidate);
                }
            },
        }
    }
}

/// The literal splitter loses no byte but separators: `data` is the
/// segments it gives, in order, with a run of complete separators before,
/// between and after them, and, at the very end, the candidate that was
/// still held back when the data ended.  Between two segments stands at
/// least one separator.
pub proof fn lemma_split_accounts_for_every_byte(paths: Set<Seq<u8>>, data: Seq<u8>)
    ensures
        exists|gaps: Seq<Seq<u8>>, pending: Seq<u8>| #[trigger]
            accounts_for(paths, data, split_literal(paths, data), gaps, pending),
{
    lemma_scan_accounts(paths, data);
    let end = scan(paths, data);
    let passed = scan_gaps(paths, data);
    if end.current.len() > 0 {
        let gaps = passed.push(Seq::<u8>::empty());
        lemma_empty_run(paths);
        lemma_interleaved_push(passed, end.segments, end.current, Seq::<u8>::empty());
        assert forall|i: int| 0 <= i < gaps.len() implies is_separator_run(
            paths,
            #[trigger] gaps[i],
        ) by {
            if i < passed.len() {
                assert(gaps[i] == passed[i]);
            }
        }
        assert forall|i: int| 0 < i < end.segments.len() + 1 implies (#[trigger] gaps[i]).len()
            > 0 by {
            assert(gaps[i] == passed[i]);
        }
        assert(data =~= interleaved(gaps, split_literal(paths, data)) + end.candidate);
        assert(accounts_for(paths, data, split_literal(paths, data), gaps, end.candidate));
    } else {
        assert(end.current =~= Seq::<u8>::empty());
        assert(data =~= interleaved(passed, end.segments) + end.candidate);
        assert(accounts_for(paths, data, split_literal(paths, data), passed, end.candidate));
    }
}

/// Splits `data` at the literal separators.
pub fn split(separators: &ByteTrie, data: &Vec<u8>) -> (segments: Vec<Vec<u8>>)
    ensures
        byte_strings(segments@) == split_literal(separators@, data@),
        forall|i: int| 0 <= i < segments.len() ==> (#[trigger] segments[i]).len() > 0,
{
    let mut result: Vec<Vec<u8>> = Vec::new();
    let mut current_line: Vec<u8> = Vec::new();
    let mut current_separator: Vec<u8> = Vec::new();
    let mut i: usize = 0;
    assert(byte_strings(result@) =~= Seq::<Seq<u8>>::empty());
    while i < data.len()
        invariant
            i <= data.len(),
            scan(separators@, data@.take(i as int)) == (Scan {
                segments: byte_strings(result@),
                current: current_line@,
                candidate: current_separator@,
            }),
        decreases data.len() - i,
    {
        let byte = data[i];
        proof {
            let read = data@.take(i + 1);
            assert(read.drop_last() =~= data@.take(i as int));
            assert(read.last() == byte);
        }
        let ghost before = scan(separators@, data@.take(i as int));
        let ghost after = scan_step(separators@, before, byte);
        assert(scan(separators@, data@.take(i + 1)) == after);
        current_separator.push(byte);
        match separators.membership(current_separator.as_slice()) {
            Membership::NotIncluded => {
                current_line.append(&mut current_separator);
            },
            Membership::Included => {},
            Membership::IncludedAndTerminal => {
                if current_line.len() > 0 {
                    result.push(current_line);
                    current_line = Vec::new();
                    assert(byte_strings(result@) =~= before.segments.push(before.current));
                }
                current_separator.clear();
            },
        }
        assert(byte_strings(result@) == after.segments);
        assert(current_line@ == after.current);
        assert(current_separator@ == after.candidate);
        i += 1;
    }
    let ghost end = scan(separators@, data@);
    proof {
        assert(data@.take(i as int) =~= data@);
        lemma_split_literal_not_empty(separators@, data@);
    }
    if current_line.len() > 0 {
        result.push(current_line);
        assert(byte_strings(result@) =~= end.segments.push(end.current));
    }
    assert(byte_strings(result@) == split_literal(separators@, data@));
    assert forall|i: int| 0 <= i < result.len() implies (#[trigger] result[i]).len() > 0 by {
        assert(byte_strings(result@)[i] == result[i]@);
        assert(split_literal(separators@, data@)[i].len() > 0);
    }
    result
}

// The two splitting stages and the filter.
/// The segments after the literal stage.  Without literal separators the
/// whole of `data` is the one segment.
pub open spec fn literal_stage(options: OptionsView, data: Seq<u8>) -> Seq<Seq<u8>> {
    match options.separators {
        None => seq![data],
        Some(paths) => split_literal(paths, data),
    }
}

/// The pieces that the regex separator cuts each of `segments` into, in
/// order.  Without a regex separator the segments pass unchanged.
pub open spec fn regex_stage(options: OptionsView, segments: Seq<Seq<u8>>) -> Seq<Seq<u8>> {
    match options.regex_separator {
        None => segments,
        Some(re) => segments.map_values(|segment: Seq<u8>| regex_split(re, segment)).flatten(),
    }
}

/// The segments of `data` after both splitting stages.
pub open spec fn split_stages(options: OptionsView, data: Seq<u8>) -> Seq<Seq<u8>> {
    regex_stage(options, literal_stage(options, data))
}

/// Whether the filters keep `segment`, which stands at position `i`.
pub open spec fn keeps(options: OptionsView, i: nat, segment: Seq<u8>) -> bool {
    match (options.index_filters, options.regex_filter) {
        (None, None) => true,
        (Some(filters), None) => any_matches(filters, i),
        (None, Some(re)) => regex_is_match(re, segment),
        (Some(filters), Some(re)) => if options.filters_combination == Some(Combination::Or) {
            any_matches(filters, i) || regex_is_match(re, segment)
        } else {
            any_matches(filters, i) && regex_is_match(re, segment)
        },
    }
}

/// The segments that the filters keep, in their order.
pub open spec fn kept(options: OptionsView, segments: Seq<Seq<u8>>) -> Seq<Seq<u8>>
    decreases segments.len(),
{
    if segments.len() == 0 {
        Seq::empty()
    } else {
        let before = kept(options, segments.drop_last());
        if keeps(options, (segments.len() - 1) as nat, segments.last()) {
            before.push(segments.last())
        } else {
            before
        }
    }
}

/// One dimension of the transformation: split, split again, filter.
pub open spec fn dimension_split(options: OptionsView, data: Seq<u8>) -> Seq<Seq<u8>> {
    kept(options, split_stages(options, data))
}

/// Options that only filter by index.
pub open spec fn only_index_filters(filters: Seq<IndexFilter>) -> OptionsView {
    OptionsView {
        separators: None,
        regex_separator: None,
        regex_filter: None,
        index_filters: Some(filters),
        filters_combination: None,
    }
}

/// Options that only filter by regular expression.
pub open spec fn only_regex_filter(re: Regex) -> OptionsView {
    OptionsView {
        separators: None,
        regex_separator: None,
        regex_filter: Some(re),
        index_filters: None,
        filters_combination: None,
    }
}

/// With neither kind of separator set, the splitting stages hand the buffer
/// on as a single segment; with no filter set either, so does the whole
/// dimension.
pub proof fn lemma_unsplit_buffer_is_one_segment(options: OptionsView, data: Seq<u8>)
    requires
        options.separators is None,
        options.regex_separator is None,
    ensures
        split_stages(options, data) == seq![data],
        options.index_filters is None && options.regex_filter is None ==> dimension_split(
            options,
            data,
        ) == seq![data],
{
    let segments = seq![data];
    if options.index_filters is None && options.regex_filter is None {
        assert(segments.drop_last() =~= Seq::<Seq<u8>>::empty());
        assert(kept(options, segments.drop_last()) =~= Seq::<Seq<u8>>::empty());
        assert(kept(options, segments) =~= segments);
    }
}

/// Whether `positions` names, in rising order, positions of `segments` that
/// the filters keep, and `chosen` holds the segments at those positions.
pub open spec fn selects(
    options: OptionsView,
    segments: Seq<Seq<u8>>,
    positions: Seq<int>,
    chosen: Seq<Seq<u8>>,
) -> bool {
    &&& positions.len() == chosen.len()
    &&& forall|k: int|
        0 <= k < positions.len() ==> 0 <= #[trigger] positions[k] < segments.len()
            && segments[positions[k]] == chosen[k] && keeps(
            options,
            positions[k] as nat,
            segments[positions[k]],
        )
    &&& forall|j: int, k: int|
        0 <= j < k < positions.len() ==> #[trigger] positions[j] < #[trigger] positions[k]
}

/// The filters keep segments of their input in the input's order.
pub proof fn lemma_kept_is_subsequence(options: OptionsView, segments: Seq<Seq<u8>>)
    ensures
        exists|positions: Seq<int>| #[trigger]
            selects(options, segments, positions, kept(options, segments)),
    decreases segments.len(),
{
    if segments.len() == 0 {
        assert(selects(options, segments, Seq::<int>::empty(), kept(options, segments)));
    } else {
        let shorter = segments.drop_last();
        lemma_kept_is_subsequence(options, shorter);
        let earlier = choose|positions: Seq<int>| #[trigger]
            selects(options, shorter, positions, kept(options, shorter));
        let positions = if keeps(options, (segments.len() - 1) as nat, segments.last()) {
            earlier.push(segments.len() - 1)
        } else {
            earlier
        };
        assert forall|k: int| 0 <= k < positions.len() implies 0 <= #[trigger] positions[k]
            < segments.len() && segments[positions[k]] == kept(options, segments)[k] && keeps(
            options,
            positions[k] as nat,
            segments[positions[k]],
        ) by {
            if k < earlier.len() {
                assert(positions[k] == earlier[k]);
                assert(shorter[earlier[k]] == segments[earlier[k]]);
            }
        }
        assert forall|j: int, k: int| 0 <= j < k < positions.len() implies #[trigger] positions[j]
            < #[trigger] positions[k] by {
            if k < earlier.len() {
                assert(earlier[j] < earlier[k]);
            } else {
                assert(positions[j] == earlier[j]);
            }
        }
        assert(selects(options, segments, positions, kept(options, segments)));
    }
}

fn any_filter_matches(filters: &Vec<IndexFilter>, i: usize) -> (selected: bool)
    ensures
        selected == any_matches(filters@, i as nat),
{
    let mut k: usize = 0;
    while k < filters.len()
        invariant
            k <= filters.len(),
            forall|j: int| 0 <= j < k ==> !(#[trigger] filters@[j]).matches(i as nat),
        decreases filters.len() - k,
    {
        if filters[k].is_match(i) {
            return true;
        }
        k += 1;
    }
    false
}

/// Splits `data` at the literal separators and then at the regex separator.
pub fn split_all(options: &Options, data: &Vec<u8>) -> (segments: Vec<Vec<u8>>)
    ensures
        byte_strings(segments@) == split_stages(options@, data@),
{
    let result = match &options.separators {
        None => {
            let whole = vec![data.clone()];
            assert(byte_strings(whole@) =~= seq![data@]);
            whole
        },
        Some(separators) => split(separators, data),
    };
    match &options.regex_separator {
        None => result,
        Some(regex_separator) => {
            let ghost re = *regex_separator;
            let ghost cut = |segment: Seq<u8>| regex_split(re, segment);
            let ghost segments = byte_strings(result@);
            let mut pieces: Vec<Vec<u8>> = Vec::new();
            let mut i: usize = 0;
            assert(byte_strings(pieces@) =~= segments.take(0).map_values(cut).flatten());
            while i < result.len()
                invariant
                    i <= result.len(),
                    segments == byte_strings(result@),
                    cut == |segment: Seq<u8>| regex_split(re, segment),
                    re == *regex_separator,
                    byte_strings(pieces@) == segments.take(i as int).map_values(cut).flatten(),
                decreases result.len() - i,
            {
                let ghost done = byte_strings(pieces@);
                let mut next = pattern::split(regex_separator, result[i].as_slice());
                proof {
                    let seen = segments.take(i as int).map_values(cut);
                    assert(segments.take(i + 1).map_values(cut) =~= seen.push(
                        byte_strings(next@),
                    ));
                    seen.lemma_flatten_push(byte_strings(next@));
                }
                let ghost added = next@;
                pieces.append(&mut next);
                assert(byte_strings(pieces@) =~= done + byte_strings(added));
                i += 1;
            }
            assert(segments.take(i as int) =~= segments);
            pieces
        },
    }
}

/// Keeps the segments of `data` whose position one of `rules` selects.
pub fn keep_index_matches(rules: &Vec<IndexFilter>, data: Vec<Vec<u8>>) -> (result: Vec<Vec<u8>>)
    ensures
        byte_strings(result@) == kept(only_index_filters(rules@), byte_strings(data@)),
{
    let mut result: Vec<Vec<u8>> = Vec::new();
    let ghost options = only_index_filters(rules@);
    let ghost segments = byte_strings(data@);
    let mut i: usize = 0;
    assert(segments.take(0) =~= Seq::<Seq<u8>>::empty());
    assert(byte_strings(result@) =~= Seq::<Seq<u8>>::empty());
    while i < data.len()
        invariant
            i <= data.len(),
            segments == byte_strings(data@),
            options == only_index_filters(rules@),
            byte_strings(result@) == kept(options, segments.take(i as int)),
        decreases data.len() - i,
    {
        proof {
            let longer = segments.take(i + 1);
            assert(longer.drop_last() =~= segments.take(i as int));
            assert(longer.last() == data@[i as int]@);
        }
        if any_filter_matches(rules, i) {
            let ghost before = byte_strings(result@);
            result.push(data[i].clone());
            assert(byte_strings(result@) =~= before.push(data@[i as int]@));
        }
        i += 1;
    }
    assert(segments.take(i as int) =~= segments);
    result
}

/// Keeps the segments of `data` that `regex` matches.
pub fn keep_regex_matches(regex: &Regex, data: Vec<Vec<u8>>) -> (result: Vec<Vec<u8>>)
    ensures
        byte_strings(result@) == kept(only_regex_filter(*regex), byte_strings(data@)),
{
    let mut result: Vec<Vec<u8>> = Vec::new();
    let ghost options = only_regex_filter(*regex);
    let ghost segments = byte_strings(data@);
    let mut i: usize = 0;
    assert(segments.take(0) =~= Seq::<Seq<u8>>::empty());
    assert(byte_strings(result@) =~= Seq::<Seq<u8>>::empty());
    while i < data.len()
        invariant
            i <= data.len(),
            segments == byte_strings(data@),
            options == only_regex_filter(*regex),
            byte_strings(result@) == kept(options, segments.take(i as int)),
        decreases data.len() - i,
    {
        proof {
            let longer = segments.take(i + 1);
            assert(longer.drop_last() =~= segments.take(i as int));
            assert(longer.last() == data@[i as int]@);
        }
        if is_match(regex, data[i].as_slice()) {
            let ghost before = byte_strings(result@);
            result.push(data[i].clone());
            assert(byte_strings(result@) =~= before.push(data@[i as int]@));
        }
        i += 1;
    }
    assert(segments.take(i as int) =~= segments);
    result
}

/// Keeps the segments of `data` that the filters of `options` select.
pub fn keep_matches(options: &Options, data: &Vec<Vec<u8>>) -> (result: Vec<Vec<u8>>)
    ensures
        byte_strings(result@) == kept(options@, byte_strings(data@)),
{
    let mut result: Vec<Vec<u8>> = Vec::new();
    let ghost segments = byte_strings(data@);
    let mut i: usize = 0;
    assert(segments.take(0) =~= Seq::<Seq<u8>>::empty());
    assert(byte_strings(result@) =~= Seq::<Seq<u8>>::empty());
    while i < data.len()
        invariant
            i <= data.len(),
            segments == byte_strings(data@),
            byte_strings(result@) == kept(options@, segments.take(i as int)),
        decreases data.len() - i,
    {
        let should_keep = match (&options.index_filters, &options.regex_filter) {
            (None, None) => true,
            (Some(index_filters), None) => any_filter_matches(index_filters, i),
            (None, Some(regex_filter)) => is_match(regex_filter, data[i].as_slice()),
            (Some(index_filters), Some(regex_filter)) => match options.filters_combination {
                Some(Combination::Or) => any_filter_matches(index_filters, i) || is_match(
                    regex_filter,
                    data[i].as_slice(),
                ),
                _ => any_filter_matches(index_filters, i) && is_match(
                    regex_filter,
                    data[i].as_slice(),
                ),
            },
        };
        proof {
            let longer = segments.take(i + 1);
            assert(longer.drop_last() =~= segments.take(i as int));
            assert(longer.last() == data@[i as int]@);
            assert(should_keep == keeps(options@, i as nat, data@[i as int]@));
        }
        if should_keep {
            let ghost before = byte_strings(result@);
            result.push(data[i].clone());
            assert(byte_strings(result@) =~= before.push(data@[i as int]@));
        }
        i += 1;
    }
    assert(segments.take(i as int) =~= segments);
    result
}

/// One dimension of the transformation: splits `data` and keeps what the
/// filters select.
pub fn split_into_records(options: &Options, data: &Vec<u8>) -> (records: Vec<Vec<u8>>)
    ensures
        byte_strings(records@) == dimension_split(options@, data@),
{
    let segments = split_all(options, data);
    keep_matches(options, &segments)
}

// The table and its text.
/// The table that the two dimensions make of `data`: the rows that the row
/// options give, each cut into the cells that the column options give.
pub open spec fn table_of(
    row_options: OptionsView,
    column_options: OptionsView,
    data: Seq<u8>,
) -> Seq<Seq<Seq<u8>>> {
    dimension_split(row_options, data).map_values(
        |row: Seq<u8>| dimension_split(column_options, row),
    )
}

/// The number of cells in the longest row.
pub open spec fn widest(table: Seq<Seq<Seq<u8>>>) -> nat
    decreases table.len(),
{
    if table.len() == 0 {
        0
    } else if table.last().len() > widest(table.drop_last()) {
        table.last().len()
    } else {
        widest(table.drop_last())
    }
}

/// `row` with empty cells added at its end until it has `width` cells.
pub open spec fn padded(row: Seq<Seq<u8>>, width: nat) -> Seq<Seq<u8>> {
    if row.len() >= width {
        row
    } else {
        row + Seq::new((width - row.len()) as nat, |i: int| Seq::<u8>::empty())
    }
}

/// `table` with every row padded to the width of the longest.
pub open spec fn rectangular(table: Seq<Seq<Seq<u8>>>) -> Seq<Seq<Seq<u8>>> {
    table.map_values(|row: Seq<Seq<u8>>| padded(row, widest(table)))
}

/// The CSV text of the view that the options give of `data`.
pub open spec fn rendered(
    row_options: OptionsView,
    column_options: OptionsView,
    data: Seq<u8>,
) -> Seq<u8> {
    csv_text(rectangular(table_of(row_options, column_options, data)))
}

/// No row is longer than the widest, and a table that has rows has one of
/// that width.
pub proof fn lemma_widest_is_maximum(table: Seq<Seq<Seq<u8>>>)
    ensures
        forall|i: int| 0 <= i < table.len() ==> (#[trigger] table[i]).len() <= widest(table),
        table.len() > 0 ==> exists|i: int|
            0 <= i < table.len() && (#[trigger] table[i]).len() == widest(table),
    decreases table.len(),
{
    if table.len() > 0 {
        let shorter = table.drop_last();
        lemma_widest_is_maximum(shorter);
        assert forall|i: int| 0 <= i < table.len() implies (#[trigger] table[i]).len() <= widest(
            table,
        ) by {
            if i < shorter.len() {
                assert(shorter[i] == table[i]);
            }
        }
        if table.last().len() > widest(shorter) || shorter.len() == 0 {
            assert(table[table.len() - 1].len() == widest(table));
        } else {
            let i = choose|i: int|
                0 <= i < shorter.len() && (#[trigger] shorter[i]).len() == widest(shorter);
            assert(table[i] == shorter[i]);
        }
    }
}

/// Every row of the rectangular table has as many cells as the widest row of
/// the table it was made from; it begins with the cells of its own row, and
/// the cells after those are empty.
pub proof fn lemma_rectangular_rows(table: Seq<Seq<Seq<u8>>>)
    ensures
        rectangular(table).len() == table.len(),
        forall|i: int|
            0 <= i < table.len() ==> (#[trigger] rectangular(table)[i]).len() == widest(table),
        forall|i: int, j: int|
            0 <= i < table.len() && 0 <= j < widest(table) ==> #[trigger] rectangular(
                table,
            )[i][j] == if j < table[i].len() {
                table[i][j]
            } else {
                Seq::<u8>::empty()
            },
{
    lemma_widest_is_maximum(table);
}

/// Reading back the CSV text of a view gives the padded table of the view,
/// as long as the table has a cell at all.  (Where no row has a cell, every
/// row is written like a row of one empty cell.)
pub proof fn lemma_rendered_view_reads_back(
    row_options: OptionsView,
    column_options: OptionsView,
    data: Seq<u8>,
)
    requires
        widest(table_of(row_options, column_options, data)) > 0,
    ensures
        parsed_csv(rendered(row_options, column_options, data)) == Some(
            rectangular(table_of(row_options, column_options, data)),
        ),
{
    let table = table_of(row_options, column_options, data);
    lemma_rectangular_rows(table);
    lemma_csv_reads_back(rectangular(table));
}

/// Cuts `data` into rows and each row into cells.
pub fn split_into_table(row_options: &Options, column_options: &Options, data: &Vec<u8>) -> (table:
    Vec<Vec<Vec<u8>>>)
    ensures
        byte_tables(table@) == table_of(row_options@, column_options@, data@),
{
    let records = split_into_records(row_options, data);
    let ghost cut = |row: Seq<u8>| dimension_split(column_options@, row);
    let ghost rows = byte_strings(records@);
    let mut table: Vec<Vec<Vec<u8>>> = Vec::new();
    let mut i: usize = 0;
    assert(byte_tables(table@) =~= rows.take(0).map_values(cut));
    while i < records.len()
        invariant
            i <= records.len(),
            rows == byte_strings(records@),
            cut == |row: Seq<u8>| dimension_split(column_options@, row),
            byte_tables(table@) == rows.take(i as int).map_values(cut),
        decreases records.len() - i,
    {
        let ghost done = byte_tables(table@);
        let cells = split_into_records(column_options, &records[i]);
        table.push(cells);
        assert(byte_tables(table@) =~= done.push(byte_strings(cells@)));
        assert(rows.take(i + 1).map_values(cut) =~= done.push(cut(rows[i as int])));
        i += 1;
    }
    assert(rows.take(i as int) =~= rows);
    table
}

/// Adds empty cells to the rows of `table` until each is as long as the longest.
pub fn pad_rows(table: &mut Vec<Vec<Vec<u8>>>)
    ensures
        byte_tables(final(table)@) == rectangular(byte_tables(old(table)@)),
{
    let ghost given = byte_tables(table@);
    let mut longest_number_of_cells: usize = 0;
    let mut i: usize = 0;
    assert(given.take(0) =~= Seq::<Seq<Seq<u8>>>::empty());
    while i < table.len()
        invariant
            i <= table.len(),
            given == byte_tables(table@),
            longest_number_of_cells == widest(given.take(i as int)),
        decreases table.len() - i,
    {
        proof {
            let longer = given.take(i + 1);
            assert(longer.drop_last() =~= given.take(i as int));
            assert(longer.last().len() == table@[i as int]@.len());
        }
        if table[i].len() > longest_number_of_cells {
            longest_number_of_cells = table[i].len();
        }
        i += 1;
    }
    assert(given.take(i as int) =~= given);
    i = 0;
    while i < table.len()
        invariant
            i <= table.len(),
            table.len() == given.len(),
            longest_number_of_cells == widest(given),
            forall|j: int|
                0 <= j < i ==> byte_strings((#[trigger] table@[j])@) == padded(
                    given[j],
                    widest(given),
                ),
            forall|j: int| i <= j < table.len() ==> byte_strings((#[trigger] table@[j])@) == given[j],
        decreases table.len() - i,
    {
        let ghost row = given[i as int];
        let ghost entered = table@;
        while table[i].len() < longest_number_of_cells
            invariant
                i < table.len(),
                table.len() == given.len(),
                row == given[i as int],
                table@[i as int]@.len() >= row.len(),
                table@[i as int]@.len() > row.len() ==> table@[i as int]@.len()
                    <= longest_number_of_cells,
                byte_strings(table@[i as int]@) == row + Seq::new(
                    (table@[i as int]@.len() - row.len()) as nat,
                    |k: int| Seq::<u8>::empty(),
                ),
                entered.len() == table.len(),
                forall|j: int| 0 <= j < table.len() && j != i ==> table@[j] == entered[j],
                forall|j: int|
                    0 <= j < i ==> byte_strings((#[trigger] entered[j])@) == padded(
                        given[j],
                        widest(given),
                    ),
                forall|j: int|
                    i < j < entered.len() ==> byte_strings((#[trigger] entered[j])@) == given[j],
            decreases longest_number_of_cells - table@[i as int]@.len(),
        {
            let ghost cells = byte_strings(table@[i as int]@);
            table[i].push(Vec::new());
            assert(byte_strings(table@[i as int]@) =~= cells.push(Seq::<u8>::empty()));
            assert(byte_strings(table@[i as int]@) =~= row + Seq::new(
                (table@[i as int]@.len() - row.len()) as nat,
                |k: int| Seq::<u8>::empty(),
            ));
        }
        proof {
            assert(byte_strings(table@[i as int]@) =~= padded(row, widest(given))) by {
                if row.len() >= widest(given) {
                    assert(row + Seq::new(0, |k: int| Seq::<u8>::empty()) =~= row);
                }
            }
            assert forall|j: int| 0 <= j < i + 1 implies byte_strings((#[trigger] table@[j])@)
                == padded(given[j], widest(given)) by {
                if j < i {
                    assert(table@[j] == entered[j]);
                }
            }
            assert forall|j: int| i + 1 <= j < table.len() implies byte_strings(
                (#[trigger] table@[j])@,
            ) == given[j] by {
                assert(table@[j] == entered[j]);
            }
        }
        i += 1;
    }
    assert(byte_tables(table@) =~= rectangular(given));
}

/// Renders the view that the options give of `data` as CSV text.
///
/// The rows are cut by `row_options`, the cells of each row by
/// `column_options`; short rows are padded with empty cells.  The padded
/// rows are all of one width, so the writer refuses none of them: the result
/// is always that text.
pub fn transform_output(column_options: &Options, row_options: &Options, data: &Vec<u8>) -> (output:
    Result<Vec<u8>, CsvAssemblyError>)
    ensures
        output matches Ok(bytes) && bytes@ == rendered(row_options@, column_options@, data@),
{
    let mut rows = split_into_table(row_options, column_options, data);
    pad_rows(&mut rows);
    proof {
        lemma_rectangular_rows(table_of(row_options@, column_options@, data@));
    }
    write_table(&rows)
}

} // verus!
