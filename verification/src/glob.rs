//! Glob matching and pattern validation.
//!
//! Matching itself is done by the `fast_glob` crate. Its dialect knows `?`,
//! `*`, `**`, character classes, brace alternation, a leading `!` for
//! negation and `\` as escape character. This module gives the matcher a
//! total interface with a length limit and checks whole pattern lists before
//! they are used.

use vstd::prelude::*;

verus! {

/// Longest pattern or candidate, in bytes, that is handed to the matcher.
/// The matcher keeps positions in 32-bit counters; anything longer is
/// treated as not matching and, for a pattern, reported as a defect.
pub const MAX_MATCH_LEN: usize = 0x7fff_ffff;

/// What `fast_glob::glob_match` answers for a pattern and a candidate.
pub uninterp spec fn glob_matches(pattern: Seq<u8>, candidate: Seq<u8>) -> bool;

/// Why a pattern was rejected.
#[derive(Clone, Copy, Debug, PartialEq, Eq, Structural)]
pub enum PatternDefect {
    /// A `{` without its `}`.
    UnclosedBrace,
    /// A `[` without its `]`.
    UnclosedBracket,
    /// A `\` at the very end, with nothing to escape.
    TrailingBackslash,
    /// Brace groups nested deeper than the matcher supports.
    BraceNestingTooDeep,
    /// More brace groups than the matcher supports.
    TooManyBraceGroups,
    /// The pattern is longer than [`MAX_MATCH_LEN`].
    TooLong,
    /// A defect that the matcher reports and this crate has no name for.
    Unclassified,
}

/// What `fast_glob::validate` answers for a pattern: `None` where it accepts
/// the pattern, else the defect and the byte offset at which it was found.
pub uninterp spec fn pattern_fault(pattern: Seq<u8>) -> Option<(PatternDefect, usize)>;

/// Calls `fast_glob::glob_match` on the two byte strings. The contract only
/// claims that the answer is a function of the two arguments; which strings
/// match is left to that crate. Both lengths are bounded so that the
/// matcher's 32-bit position counters cannot overflow.
#[verifier::external_body]
fn glob_match_raw(pattern: &[u8], candidate: &[u8]) -> (matched: bool)
    requires
        pattern@.len() <= MAX_MATCH_LEN,
        candidate@.len() <= MAX_MATCH_LEN,
    ensures
        matched == glob_matches(pattern@, candidate@),
{
    fast_glob::glob_match(pattern, candidate)
}

/// Calls `fast_glob::validate` on the pattern and carries its error over
/// into this crate's terms. The contract only claims that the answer is a
/// function of the pattern.
#[verifier::external_body]
fn validate_raw(pattern: &[u8]) -> (fault: Option<(PatternDefect, usize)>)
    ensures
        fault == pattern_fault(pattern@),
{
    match fast_glob::validate(pattern) {
        Ok(()) => None,
        Err(e) => Some((match e.kind {
            fast_glob::ErrorKind::UnclosedBrace => PatternDefect::UnclosedBrace,
            fast_glob::ErrorKind::UnclosedBracket => PatternDefect::UnclosedBracket,
            fast_glob::ErrorKind::TrailingBackslash => PatternDefect::TrailingBackslash,
            fast_glob::ErrorKind::BraceNestingTooDeep => PatternDefect::BraceNestingTooDeep,
            fast_glob::ErrorKind::TooManyBraceGroups => PatternDefect::TooManyBraceGroups,
            _ => PatternDefect::Unclassified,
        }, e.index)),
    }
}

/// The views of a list of byte strings.
pub open spec fn byte_seqs(v: Seq<Vec<u8>>) -> Seq<Seq<u8>> {
    v.map_values(|b: Vec<u8>| b@)
}

/// Whether `candidate` as a whole matches `pattern`. Over-long arguments
/// never match.
pub open spec fn matches_spec(pattern: Seq<u8>, candidate: Seq<u8>) -> bool {
    &&& pattern.len() <= MAX_MATCH_LEN
    &&& candidate.len() <= MAX_MATCH_LEN
    &&& glob_matches(pattern, candidate)
}

/// Whether `candidate` matches at least one of `patterns`.
pub open spec fn matches_any_spec(patterns: Seq<Seq<u8>>, candidate: Seq<u8>) -> bool {
    exists|i: int| 0 <= i < patterns.len() && matches_spec(#[trigger] patterns[i], candidate)
}

/// Tests one candidate against one pattern. The match is anchored and
/// case-sensitive; the function never fails.
pub fn matches(pattern: &[u8], candidate: &[u8]) -> (r: bool)
    ensures
        r == matches_spec(pattern@, candidate@),
{
    if pattern.len() > MAX_MATCH_LEN || candidate.len() > MAX_MATCH_LEN {
        false
    } else {
        glob_match_raw(pattern, candidate)
    }
}

/// Tests one candidate against a list of patterns: true if any matches.
pub fn matches_any(patterns: &Vec<Vec<u8>>, candidate: &[u8]) -> (r: bool)
    ensures
        r == matches_any_spec(byte_seqs(patterns@), candidate@),
{
    let mut i: usize = 0;
    while i < patterns.len()
        invariant
            i <= patterns.len(),
            forall|j: int| 0 <= j < i ==> !matches_spec(#[trigger] byte_seqs(patterns@)[j], candidate@),
        decreases patterns.len() - i,
    {
        if matches(patterns[i].as_slice(), candidate) {
            assert(matches_spec(byte_seqs(patterns@)[i as int], candidate@));
            return true;
        }
        i += 1;
    }
    false
}

/// What checking a single pattern yields: nothing for a sound pattern, else
/// the defect and the byte offset at which it was found. A pattern over the
/// length limit is reported at the first byte beyond it.
pub open spec fn pattern_check(pattern: Seq<u8>) -> Option<(PatternDefect, usize)> {
    if pattern.len() > MAX_MATCH_LEN {
        Some((PatternDefect::TooLong, MAX_MATCH_LEN))
    } else {
        pattern_fault(pattern)
    }
}

/// Whether a pattern may be used for matching.
pub open spec fn pattern_ok(pattern: Seq<u8>) -> bool {
    pattern_check(pattern) is None
}

/// Whether every pattern of a list may be used for matching.
pub open spec fn patterns_ok(patterns: Seq<Seq<u8>>) -> bool {
    forall|i: int| 0 <= i < patterns.len() ==> pattern_ok(#[trigger] patterns[i])
}

/// A defective pattern within a list.
#[derive(Clone, Copy, Debug, PartialEq, Eq, Structural)]
pub struct PatternFault {
    /// Position of the pattern in its list.
    pub index: usize,
    /// What is wrong with it.
    pub defect: PatternDefect,
    /// Byte offset of the defect within the pattern.
    pub offset: usize,
}

/// Whether `f` describes the first defective pattern of `patterns`.
pub open spec fn is_first_fault(patterns: Seq<Seq<u8>>, f: PatternFault) -> bool {
    &&& f.index < patterns.len()
    &&& pattern_check(patterns[f.index as int]) == Some((f.defect, f.offset))
    &&& forall|j: int| 0 <= j < f.index ==> pattern_ok(#[trigger] patterns[j])
}

/// Checks a single pattern.
pub fn check_pattern(pattern: &[u8]) -> (r: Option<(PatternDefect, usize)>)
    ensures
        r == pattern_check(pattern@),
{
    if pattern.len() > MAX_MATCH_LEN {
        Some((PatternDefect::TooLong, MAX_MATCH_LEN))
    } else {
        validate_raw(pattern)
    }
}

/// Checks a list of patterns in order and reports the first defective one.
pub fn check_patterns(patterns: &Vec<Vec<u8>>) -> (r: Result<(), PatternFault>)
    ensures
        r is Ok <==> patterns_ok(byte_seqs(patterns@)),
        r matches Err(f) ==> is_first_fault(byte_seqs(patterns@), f),
{
    let mut i: usize = 0;
    while i < patterns.len()
        invariant
            i <= patterns.len(),
            forall|j: int| 0 <= j < i ==> pattern_ok(#[trigger] byte_seqs(patterns@)[j]),
        decreases patterns.len() - i,
    {
        match check_pattern(patterns[i].as_slice()) {
            Some((defect, offset)) => {
                assert(!pattern_ok(byte_seqs(patterns@)[i as int]));
                return Err(PatternFault { index: i, defect, offset });
            },
            None => {},
        }
        i += 1;
    }
    Ok(())
}

} // verus!
