//! Aggregation of check results: the list of available candidates, the
//! lines to append to the output file, and the progress marks.
//!
//! The aggregator never touches the file itself. For each available
//! candidate it hands out the line to append and, in the same step, adds
//! the candidate to its list; `appended` is the text it has handed out so
//! far, and it is always the text of the list, line by line.

use vstd::prelude::*;
use vstd::string::StringExecFns;
use crate::generator::is_word;

verus! {

/// Progress mark for an available candidate.
pub const MARK_AVAILABLE: char = '+';

/// Progress mark for a candidate that is not available.
pub const MARK_UNAVAILABLE: char = '.';

/// What the caller has to do for one check result.
#[derive(Debug, PartialEq, Eq)]
pub struct Outcome {
    /// The text to append to the output file, if any.
    pub line: Option<String>,
    /// The progress mark to print.
    pub marker: char,
}

/// The line that records a candidate: the candidate and a line feed.
pub open spec fn line_of(candidate: Seq<char>) -> Seq<char> {
    candidate.push('\n')
}

/// The text of a list of candidates, one line each.
pub open spec fn lines_text(candidates: Seq<Seq<char>>) -> Seq<char>
    decreases candidates.len(),
{
    if candidates.len() == 0 {
        Seq::empty()
    } else {
        lines_text(candidates.drop_last()) + line_of(candidates.last())
    }
}

/// The output file after a run that found `found`, given what it held
/// before: the file is only ever appended to.
pub open spec fn file_after(before: Seq<char>, found: Seq<Seq<char>>) -> Seq<char> {
    before + lines_text(found)
}

/// Number of line feeds in a text.
pub open spec fn line_count(text: Seq<char>) -> nat
    decreases text.len(),
{
    if text.len() == 0 {
        0
    } else {
        line_count(text.drop_last()) + if text.last() == '\n' {
            1nat
        } else {
            0nat
        }
    }
}

/// Whether no candidate of the list holds a line feed.
pub open spec fn single_lines(candidates: Seq<Seq<char>>) -> bool {
    forall|i: int, k: int|
        0 <= i < candidates.len() && 0 <= k < candidates[i].len() ==> #[trigger] candidates[i][k]
            != '\n'
}

/// The entry line of a candidate in the final listing.
pub open spec fn listing_line_of(candidate: Seq<char>) -> Seq<char> {
    seq!['-', ' '] + candidate
}

/// The list after one more check result: an available candidate goes to
/// the end, any other leaves the list as it was.
pub open spec fn record_model(
    found: Seq<Seq<char>>,
    candidate: Seq<char>,
    available: bool,
) -> Seq<Seq<char>> {
    if available {
        found.push(candidate)
    } else {
        found
    }
}

/// The list after a whole series of check results, taken in the order in
/// which the checks completed.
pub open spec fn found_after(found: Seq<Seq<char>>, checks: Seq<(Seq<char>, bool)>) -> Seq<
    Seq<char>,
>
    decreases checks.len(),
{
    if checks.len() == 0 {
        found
    } else {
        record_model(found_after(found, checks.drop_last()), checks.last().0, checks.last().1)
    }
}

/// Number of positive results among a series of checks.
pub open spec fn available_count(checks: Seq<(Seq<char>, bool)>) -> nat
    decreases checks.len(),
{
    if checks.len() == 0 {
        0
    } else {
        available_count(checks.drop_last()) + if checks.last().1 {
            1nat
        } else {
            0nat
        }
    }
}

/// After a run, whatever the order in which the checks completed, the list
/// holds exactly the candidates that were found available: a candidate is
/// in the list if and only if one of its checks was positive, and the list
/// has one entry per positive check.
pub proof fn lemma_found_is_what_was_available(checks: Seq<(Seq<char>, bool)>)
    ensures
        found_after(Seq::empty(), checks).len() == available_count(checks),
        forall|word: Seq<char>|
            #![trigger found_after(Seq::empty(), checks).contains(word)]
            found_after(Seq::empty(), checks).contains(word) <==> checks.contains((word, true)),
    decreases checks.len(),
{
    let found = found_after(Seq::empty(), checks);
    if checks.len() > 0 {
        let front = checks.drop_last();
        let last = checks.last();
        let before = found_after(Seq::empty(), front);
        lemma_found_is_what_was_available(front);
        assert forall|word: Seq<char>|
            #![trigger found.contains(word)]
            found.contains(word) <==> checks.contains((word, true)) by {
            if found.contains(word) {
                let i = choose|i: int| 0 <= i < found.len() && found[i] == word;
                if last.1 && i == found.len() - 1 {
                    assert(checks[checks.len() - 1] == (word, true));
                } else {
                    assert(before[i] == word);
                    assert(before.contains(word));
                    let k = choose|k: int| 0 <= k < front.len() && front[k] == (word, true);
                    assert(checks[k] == (word, true));
                }
            }
            if checks.contains((word, true)) {
                let k = choose|k: int| 0 <= k < checks.len() && checks[k] == (word, true);
                if k == checks.len() - 1 {
                    assert(found[found.len() - 1] == word);
                } else {
                    assert(front[k] == (word, true));
                    assert(front.contains((word, true)));
                    assert(before.contains(word));
                    let i = choose|i: int| 0 <= i < before.len() && before[i] == word;
                    assert(found[i] == word);
                }
            }
        }
    }
}

/// The line feeds of a text in two parts are those of its parts.
pub proof fn lemma_line_count_concat(a: Seq<char>, b: Seq<char>)
    ensures
        line_count(a + b) == line_count(a) + line_count(b),
    decreases b.len(),
{
    if b.len() == 0 {
        assert(a + b =~= a);
    } else {
        lemma_line_count_concat(a, b.drop_last());
        assert((a + b).drop_last() =~= a + b.drop_last());
    }
}

/// A text without line feeds counts no line.
pub proof fn lemma_line_count_none(text: Seq<char>)
    requires
        forall|k: int| 0 <= k < text.len() ==> #[trigger] text[k] != '\n',
    ensures
        line_count(text) == 0,
    decreases text.len(),
{
    if text.len() > 0 {
        lemma_line_count_none(text.drop_last());
    }
}

/// The text of a list has one line per candidate.
pub proof fn lemma_one_line_each(candidates: Seq<Seq<char>>)
    requires
        single_lines(candidates),
    ensures
        line_count(lines_text(candidates)) == candidates.len(),
    decreases candidates.len(),
{
    if candidates.len() > 0 {
        let front = candidates.drop_last();
        let last = candidates.last();
        assert forall|i: int, k: int| 0 <= i < front.len() && 0 <= k < front[i].len() implies (
        #[trigger] front[i][k]) != '\n' by {
            assert(front[i][k] == candidates[i][k]);
        }
        lemma_one_line_each(front);
        assert forall|k: int| 0 <= k < last.len() implies #[trigger] last[k] != '\n' by {
            assert(last[k] == candidates[candidates.len() - 1][k]);
        }
        lemma_line_count_none(last);
        assert(line_of(last).drop_last() =~= last);
        lemma_line_count_concat(lines_text(front), line_of(last));
    }
}

/// Words over the alphabet hold no line feed, so each takes one line.
pub proof fn lemma_words_are_single_lines(candidates: Seq<Seq<char>>, len: nat)
    requires
        forall|i: int| 0 <= i < candidates.len() ==> is_word(#[trigger] candidates[i], len),
    ensures
        single_lines(candidates),
{
    assert forall|i: int, k: int|
        0 <= i < candidates.len() && 0 <= k < candidates[i].len() implies #[trigger] candidates[i][k]
        != '\n' by {
        assert(is_word(candidates[i], len));
    }
}

/// The number of candidates found in a run is the number of lines that the
/// run adds to the output file, on top of those it held before.
pub proof fn lemma_count_matches_file(before: Seq<char>, found: Seq<Seq<char>>)
    requires
        single_lines(found),
    ensures
        line_count(file_after(before, found)) == line_count(before) + found.len(),
{
    lemma_one_line_each(found);
    lemma_line_count_concat(before, lines_text(found));
}

/// A run leaves what the output file held before in place, unchanged, and
/// puts its own lines behind it.
pub proof fn lemma_append_only(before: Seq<char>, found: Seq<Seq<char>>)
    ensures
        file_after(before, found).len() == before.len() + lines_text(found).len(),
        file_after(before, found).subrange(0, before.len() as int) == before,
        file_after(before, found).subrange(
            before.len() as int,
            file_after(before, found).len() as int,
        ) == lines_text(found),
{
    let after = file_after(before, found);
    assert(after.subrange(0, before.len() as int) =~= before);
    assert(after.subrange(before.len() as int, after.len() as int) =~= lines_text(found));
}

/// A second run on the file that a first run left appends its lines behind
/// those of the first: the same candidate found twice is recorded twice.
pub proof fn lemma_runs_accumulate(
    before: Seq<char>,
    first: Seq<Seq<char>>,
    second: Seq<Seq<char>>,
)
    ensures
        file_after(file_after(before, first), second) == file_after(before, first + second),
    decreases second.len(),
{
    if second.len() == 0 {
        assert(first + second =~= first);
        assert(file_after(before, first) + Seq::<char>::empty() =~= file_after(before, first));
    } else {
        lemma_runs_accumulate(before, first, second.drop_last());
        assert((first + second).drop_last() =~= first + second.drop_last());
        assert((first + second).last() == second.last());
        assert(file_after(file_after(before, first), second) =~= file_after(
            file_after(before, first),
            second.drop_last(),
        ) + line_of(second.last()));
        assert(file_after(before, first + second) =~= file_after(
            before,
            first + second.drop_last(),
        ) + line_of(second.last()));
    }
}

/// The candidates found available so far, in the order in which they were
/// recorded.
pub struct Aggregator {
    results: Vec<String>,
    appended: Ghost<Seq<char>>,
}

impl Aggregator {
    /// The candidates recorded so far, oldest first.
    pub closed spec fn found(&self) -> Seq<Seq<char>> {
        Seq::new(self.results@.len(), |i: int| self.results@[i]@)
    }

    /// The text handed out so far for appending to the output file.
    pub closed spec fn appended(&self) -> Seq<char> {
        self.appended@
    }

    /// List and file in lockstep: the text handed out for the file is the
    /// text of the list, one line per candidate, in the same order.
    pub open spec fn wf(&self) -> bool {
        self.appended() == lines_text(self.found())
    }

    /// The count that is reported at the end is the number of lines handed
    /// out for the output file.
    pub proof fn lemma_count_is_lines_appended(&self)
        requires
            self.wf(),
            single_lines(self.found()),
        ensures
            line_count(self.appended()) == self.found().len(),
    {
        lemma_one_line_each(self.found());
    }

    /// An aggregator that has recorded nothing.
    pub fn new() -> (fresh: Aggregator)
        ensures
            fresh.wf(),
            fresh.found() == Seq::<Seq<char>>::empty(),
            fresh.appended() == Seq::<char>::empty(),
    {
        let fresh = Aggregator { results: Vec::new(), appended: Ghost(Seq::empty()) };
        assert(fresh.found() =~= Seq::<Seq<char>>::empty());
        fresh
    }

    /// Takes in the result of one check. For an available candidate: hands
    /// out its line for the output file, adds it at the end of the list, and
    /// asks for the mark `+`. For any other: changes nothing, hands out no
    /// line, and asks for the mark `.`.
    pub fn record(&mut self, candidate: &str, available: bool) -> (outcome: Outcome)
        requires
            old(self).wf(),
        ensures
            final(self).wf(),
            final(self).found() == record_model(old(self).found(), candidate@, available),
            available ==> {
                &&& final(self).found() == old(self).found().push(candidate@)
                &&& final(self).appended() == old(self).appended() + line_of(candidate@)
                &&& outcome.line matches Some(line) && line@ == line_of(candidate@)
                &&& outcome.marker == MARK_AVAILABLE
            },
            !available ==> {
                &&& final(self).found() == old(self).found()
                &&& final(self).appended() == old(self).appended()
                &&& outcome.line is None
                &&& outcome.marker == MARK_UNAVAILABLE
            },
    {
        if available {
            let mut line = String::from_str(candidate);
            line.append("\n");
            let entry = String::from_str(candidate);
            proof {
                reveal_strlit("\n");
                assert(line@ =~= line_of(candidate@));
            }
            let ghost before = self.found();
            self.results.push(entry);
            proof {
                assert(self.found() =~= before.push(candidate@));
                assert(self.found().drop_last() =~= before);
                self.appended@ = self.appended@ + line_of(candidate@);
            }
            Outcome { line: Some(line), marker: MARK_AVAILABLE }
        } else {
            Outcome { line: None, marker: MARK_UNAVAILABLE }
        }
    }

    /// Number of candidates recorded so far.
    pub fn count(&self) -> (n: usize)
        ensures
            n == self.found().len(),
    {
        self.results.len()
    }

    /// The candidates recorded so far, oldest first.
    pub fn results(&self) -> (list: &Vec<String>)
        ensures
            list@.len() == self.found().len(),
            forall|i: int| 0 <= i < list@.len() ==> (#[trigger] list@[i])@ == self.found()[i],
    {
        &self.results
    }

    /// The final listing: for each recorded candidate, in order, the line
    /// `- ` followed by the candidate.
    pub fn listing(&self) -> (lines: Vec<String>)
        ensures
            lines@.len() == self.found().len(),
            forall|i: int|
                0 <= i < lines@.len() ==> (#[trigger] lines@[i])@ == listing_line_of(
                    self.found()[i],
                ),
    {
        let mut lines: Vec<String> = Vec::new();
        let mut i: usize = 0;
        while i < self.results.len()
            invariant
                i <= self.results@.len(),
                lines@.len() == i,
                forall|k: int|
                    0 <= k < i ==> (#[trigger] lines@[k])@ == listing_line_of(self.results@[k]@),
            decreases self.results@.len() - i,
        {
            let mut line = String::from_str("- ");
            line.append(self.results[i].as_str());
            proof {
                reveal_strlit("- ");
                assert(line@ =~= listing_line_of(self.results@[i as int]@));
            }
            lines.push(line);
            i = i + 1;
        }
        lines
    }
}

} // verus!
