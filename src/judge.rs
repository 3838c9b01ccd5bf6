use vstd::prelude::*;
use crate::model::{BlockCheck, Pos, WorldPos};
use crate::offset::{apply_offset, translated};
use crate::text::{chars_of, contains, contains_chars, namespace, strip_sep, strip_separators, trim_namespace, trim_prefix};

verus! {

/// The lower-case form of a text, as std's `str::to_lowercase` gives it.
pub uninterp spec fn lower_of(s: Seq<char>) -> Seq<char>;

/// Relies on std's `str::to_lowercase`: its result depends on the
/// characters of the argument alone.
#[verifier::external_body]
fn lowercase(s: &str) -> (r: String)
    ensures
        r@ == lower_of(s@),
{
    s.to_lowercase()
}

/// Whether two lower-case block texts match: with their separators taken
/// out, one of them occurs in the other.
pub open spec fn folded_match(actual_lower: Seq<char>, expected_lower: Seq<char>) -> bool {
    contains(strip_sep(actual_lower), strip_sep(expected_lower)) || contains(
        strip_sep(expected_lower),
        strip_sep(actual_lower),
    )
}

/// A block text without its namespace, in lower case and without separators.
pub open spec fn norm(s: Seq<char>) -> Seq<char> {
    strip_sep(lower_of(trim_prefix(s, namespace())))
}

/// Whether a block description matches an expected identifier: once both are
/// normalised, one of them occurs in the other.
pub open spec fn block_matches_spec(actual: Seq<char>, expected: Seq<char>) -> bool {
    contains(norm(actual), norm(expected)) || contains(norm(expected), norm(actual))
}

/// `folded_match` on lower-case texts.
pub fn matches_folded(actual_lower: &str, expected_lower: &str) -> (r: bool)
    ensures
        r == folded_match(actual_lower@, expected_lower@),
{
    let a = strip_separators(&chars_of(actual_lower));
    let e = strip_separators(&chars_of(expected_lower));
    if contains_chars(&a, &e) {
        true
    } else {
        contains_chars(&e, &a)
    }
}

/// Whether the block description `actual` shows the block `expected`.
pub fn block_matches(actual: &str, expected: &str) -> (r: bool)
    ensures
        r == block_matches_spec(actual@, expected@),
{
    let expected_lower = lowercase(trim_namespace(expected));
    let actual_lower = lowercase(trim_namespace(actual));
    matches_folded(actual_lower.as_str(), expected_lower.as_str())
}

/// Whether an answered query shows the block `expected`; no answer shows none.
pub open spec fn check_holds(answer: Option<String>, expected: Seq<char>) -> bool {
    match answer {
        Some(a) => block_matches_spec(a@, expected),
        None => false,
    }
}

/// Whether an answered state query holds the value `expected`.
pub open spec fn state_holds(answer: Option<String>, expected: Seq<char>) -> bool {
    match answer {
        Some(a) => contains(a@, expected),
        None => false,
    }
}

/// A failed assertion: where, what was expected and what was found.
#[derive(Clone, Debug)]
pub struct Mismatch {
    pub pos: Pos,
    pub property: Option<String>,
    pub expected: String,
    pub actual: Option<String>,
}

/// The outcome of one assertion entry.
#[derive(Clone, Debug)]
pub enum Verdict {
    Passed,
    Failed(Mismatch),
}

/// An assertion that cannot be judged as stated.
#[derive(Clone, Copy, Debug, PartialEq, Eq, Structural)]
pub enum JudgeError {
    /// The occurrence has no expected value.
    OccurrenceOutOfRange,
    /// The firing is not an assertion.
    NotAnAssertion,
    /// The answers do not match the queries, one for one.
    AnswerCount,
}

/// Whether the answers so far, one per check in order, all hold.
pub open spec fn answers_hold(checks: Seq<BlockCheck>, answers: Seq<Option<String>>) -> bool {
    forall|j: int| 0 <= j < answers.len() ==> #[trigger] check_holds(answers[j], checks[j].is@)
}

/// Whether an `Assert` entry still needs an answer: every answer so far holds
/// and some check has none yet.
pub open spec fn blocks_pending(checks: Seq<BlockCheck>, answers: Seq<Option<String>>) -> bool {
    answers.len() < checks.len() && answers_hold(checks, answers)
}

/// `v` is the verdict on the answers to an entry's checks: passed when every
/// answer holds, else a report of the first check whose answer does not.
pub open spec fn blocks_verdict(checks: Seq<BlockCheck>, answers: Seq<Option<String>>, v: Verdict) -> bool {
    &&& v is Passed <==> answers_hold(checks, answers)
    &&& v matches Verdict::Failed(m) ==> exists|i: int|
        0 <= i < answers.len() && !check_holds(answers[i], checks[i].is@) && (forall|j: int|
            0 <= j < i ==> #[trigger] check_holds(answers[j], checks[j].is@)) && m.pos == checks[i].pos
            && m.property is None && m.expected@ == checks[i].is@ && m.actual == answers[i]
}

/// The first answer that does not hold, if any.
fn first_failure(checks: &Vec<BlockCheck>, answers: &Vec<Option<String>>) -> (r: Option<usize>)
    requires
        answers@.len() <= checks@.len(),
    ensures
        r is None <==> answers_hold(checks@, answers@),
        r matches Some(i) ==> i < answers@.len() && !check_holds(answers@[i as int], checks@[i as int].is@)
            && forall|j: int| 0 <= j < i ==> #[trigger] check_holds(answers@[j], checks@[j].is@),
{
    let mut i: usize = 0;
    while i < answers.len()
        invariant
            answers@.len() <= checks@.len(),
            i <= answers@.len(),
            forall|j: int| 0 <= j < i ==> #[trigger] check_holds(answers@[j], checks@[j].is@),
        decreases answers@.len() - i,
    {
        let ok = match &answers[i] {
            Some(a) => block_matches(a.as_str(), checks[i].is.as_str()),
            None => false,
        };
        if !ok {
            proof {
                assert(!check_holds(answers@[i as int], checks@[i as int].is@));
            }
            return Some(i);
        }
        i += 1;
    }
    None
}

/// The world position to query next for an `Assert` entry placed at
/// `offset`, given the answers so far, one per check in order: that of the
/// first check without an answer, or nothing once a check has failed or every
/// check has its answer.
pub fn next_block_query(checks: &Vec<BlockCheck>, offset: Pos, answers: &Vec<Option<String>>) -> (r: Option<
    WorldPos,
>)
    requires
        answers@.len() <= checks@.len(),
    ensures
        r is Some <==> blocks_pending(checks@, answers@),
        r matches Some(p) ==> p == translated(checks@[answers@.len() as int].pos, offset),
{
    if answers.len() == checks.len() {
        return None;
    }
    match first_failure(checks, answers) {
        Some(_) => None,
        None => Some(apply_offset(checks[answers.len()].pos, offset)),
    }
}

/// Judges an `Assert` entry from the answers to its queries, one per check in
/// order, as `next_block_query` asked for them: nothing while an answer is
/// still needed; then passed when every check holds, else a report of the
/// first check that does not.
pub fn judge_blocks(checks: &Vec<BlockCheck>, answers: &Vec<Option<String>>) -> (r: Option<Verdict>)
    requires
        answers@.len() <= checks@.len(),
    ensures
        r is None <==> blocks_pending(checks@, answers@),
        r matches Some(v) ==> blocks_verdict(checks@, answers@, v),
{
    match first_failure(checks, answers) {
        None => {
            if answers.len() < checks.len() {
                None
            } else {
                Some(Verdict::Passed)
            }
        },
        Some(i) => {
            let actual = match &answers[i] {
                Some(a) => Some(a.clone()),
                None => None,
            };
            Some(
                Verdict::Failed(
                    Mismatch { pos: checks[i].pos, property: None, expected: checks[i].is.clone(), actual },
                ),
            )
        },
    }
}

/// `v` is the verdict on the state answer for one occurrence: passed when the
/// answer holds the expected value, else a report of what was found.
pub open spec fn state_verdict(
    pos: Pos,
    property: String,
    expected: String,
    answer: Option<String>,
    v: Verdict,
) -> bool {
    &&& v is Passed <==> state_holds(answer, expected@)
    &&& v matches Verdict::Failed(m) ==> m.pos == pos && m.property == Some(property) && m.expected
        == expected && m.actual == answer
}

/// Judges one occurrence of an `AssertState` entry from the answer to its
/// state query: it passes when the answer holds the occurrence's expected
/// value. An occurrence without an expected value is an error.
pub fn judge_state(
    pos: Pos,
    property: &String,
    values: &Vec<String>,
    occurrence: usize,
    answer: &Option<String>,
) -> (r: Result<Verdict, JudgeError>)
    ensures
        r is Err <==> occurrence >= values@.len(),
        r matches Err(e) ==> e == JudgeError::OccurrenceOutOfRange,
        r matches Ok(v) ==> state_verdict(pos, *property, values@[occurrence as int], *answer, v),
{
    if occurrence >= values.len() {
        return Err(JudgeError::OccurrenceOutOfRange);
    }
    let expected = &values[occurrence];
    let ok = match answer {
        Some(a) => contains_chars(&chars_of(a.as_str()), &chars_of(expected.as_str())),
        None => false,
    };
    if ok {
        Ok(Verdict::Passed)
    } else {
        let actual = match answer {
            Some(a) => Some(a.clone()),
            None => None,
        };
        Ok(Verdict::Failed(Mismatch { pos, property: Some(property.clone()), expected: expected.clone(), actual }))
    }
}

/// The property marker looked for in a state description: the property's
/// name, a colon and a space.
pub open spec fn property_marker(property: Seq<char>) -> Seq<char> {
    property + seq![':', ' ']
}

/// The state description itself when it names the property, else nothing.
pub fn property_probe(state: String, property: &str) -> (r: Option<String>)
    ensures
        r is Some <==> contains(state@, property_marker(property@)),
        r matches Some(s) ==> s == state,
{
    let mut marker = chars_of(property);
    marker.push(':');
    marker.push(' ');
    proof {
        assert(marker@ =~= property_marker(property@));
    }
    if contains_chars(&chars_of(state.as_str()), &marker) {
        Some(state)
    } else {
        None
    }
}

} // verus!
