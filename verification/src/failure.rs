//! The record of the furthest failure of a parse: how far any rule got into the
//! input, and what would have let it go on from there.

use vstd::prelude::*;
use crate::utf8::str_eq;

verus! {

/// What a rule hands back: the position behind what it matched, with the value
/// built from it, or a failure.
pub enum RuleResult<T> {
    Matched(usize, T),
    Failed,
}

impl<T> RuleResult<T> {
    /// The position behind what was matched, if anything was.
    pub open spec fn position(self) -> Option<int> {
        match self {
            RuleResult::Matched(next, _) => Some(next as int),
            RuleResult::Failed => None,
        }
    }
}

impl<T: View> RuleResult<T> {
    /// The position behind what was matched and the value built from it, as
    /// mathematical values.
    pub open spec fn outcome(self) -> Option<(int, T::V)> {
        match self {
            RuleResult::Matched(next, value) => Some((next as int, value@)),
            RuleResult::Failed => None,
        }
    }
}

/// The furthest failure as a mathematical value.
pub struct Tracker {
    /// The furthest position at which a rule failed.
    pub max_err_pos: nat,
    /// While this is not zero, failures are not recorded.
    pub suppress_fail: nat,
    /// The descriptions of what was expected at `max_err_pos`.
    pub expected: Set<Seq<char>>,
}

impl Tracker {
    /// Whether the furthest failure lies inside an input of `len` bytes.
    pub open spec fn within(self, len: nat) -> bool {
        self.max_err_pos <= len
    }

    /// The record before anything was tried.
    pub open spec fn start() -> Tracker {
        Tracker { max_err_pos: 0, suppress_fail: 0, expected: Set::empty() }
    }

    /// The record after a failure at `pos` of something described by `what`: a
    /// failure further on replaces what was recorded, one at the same position
    /// adds to it, and one before it is dropped.
    pub open spec fn mark(self, pos: nat, what: Seq<char>) -> Tracker {
        if self.suppress_fail != 0 || pos < self.max_err_pos {
            self
        } else if pos > self.max_err_pos {
            Tracker { max_err_pos: pos, expected: Set::empty().insert(what), ..self }
        } else {
            Tracker { expected: self.expected.insert(what), ..self }
        }
    }
}

/// A failure never moves the furthest position back, and moves it to where the
/// failure is unless a failure further on, or as far on, was recorded.
pub proof fn lemma_mark_furthest(t: Tracker, pos: nat, what: Seq<char>)
    requires
        t.suppress_fail == 0,
    ensures
        t.mark(pos, what).max_err_pos == if pos > t.max_err_pos {
            pos
        } else {
            t.max_err_pos
        },
        t.mark(pos, what).suppress_fail == 0,
        pos >= t.max_err_pos ==> t.mark(pos, what).expected.contains(what),
        pos == t.max_err_pos ==> t.expected.subset_of(t.mark(pos, what).expected),
        pos < t.max_err_pos ==> t.mark(pos, what) == t,
{
}

/// A failure that is recorded twice in a row is recorded once.
pub proof fn lemma_mark_twice(t: Tracker, pos: nat, what: Seq<char>)
    ensures
        t.mark(pos, what).mark(pos, what) == t.mark(pos, what),
{
    let once = t.mark(pos, what);
    assert(once.mark(pos, what).expected =~= once.expected);
}

/// While failures are suppressed, nothing is recorded.
pub proof fn lemma_mark_suppressed(t: Tracker, pos: nat, what: Seq<char>)
    requires
        t.suppress_fail != 0,
    ensures
        t.mark(pos, what) == t,
{
}

/// The set of texts that a list of descriptions holds.
pub open spec fn described(list: Seq<&'static str>) -> Set<Seq<char>> {
    Set::new(|what: Seq<char>| exists|i: int| 0 <= i < list.len() && #[trigger] list[i]@ == what)
}

/// No description occurs twice in the list.
pub open spec fn distinct(list: Seq<&'static str>) -> bool {
    forall|i: int, j: int| 0 <= i < j < list.len() ==> #[trigger] list[i]@ != #[trigger] list[j]@
}

/// Why a parse failed, as a mathematical value.
pub struct ErrorModel {
    pub line: int,
    pub column: int,
    pub offset: int,
    pub expected: Set<Seq<char>>,
}

/// Why a parse failed: the furthest position that any rule reached, as a byte
/// offset and as a line and a column that count from one, and the descriptions
/// of what would have let a rule go on from there, each once.
#[derive(Debug, Clone, PartialEq, Eq)]
pub struct ParseError {
    pub line: usize,
    pub column: usize,
    pub offset: usize,
    pub expected: Vec<&'static str>,
}

impl View for ParseError {
    type V = ErrorModel;

    open spec fn view(&self) -> ErrorModel {
        ErrorModel {
            line: self.line as int,
            column: self.column as int,
            offset: self.offset as int,
            expected: described(self.expected@),
        }
    }
}

/// What a parse gives.
pub type ParseResult<T> = Result<T, ParseError>;

/// The furthest failure, threaded through every rule of a parse.
pub struct ParseState {
    max_err_pos: usize,
    suppress_fail: usize,
    expected: Vec<&'static str>,
}

impl View for ParseState {
    type V = Tracker;

    closed spec fn view(&self) -> Tracker {
        Tracker {
            max_err_pos: self.max_err_pos as nat,
            suppress_fail: self.suppress_fail as nat,
            expected: described(self.expected@),
        }
    }
}

impl ParseState {
    #[verifier::type_invariant]
    spec fn well_formed(&self) -> bool {
        distinct(self.expected@)
    }

    /// A record with nothing in it.
    pub fn new() -> (state: ParseState)
        ensures
            state@ == Tracker::start(),
    {
        let state = ParseState { max_err_pos: 0, suppress_fail: 0, expected: Vec::new() };
        assert(described(state.expected@) =~= Set::empty());
        state
    }

    /// The furthest position at which a rule failed.
    pub fn max_err_pos(&self) -> (pos: usize)
        ensures
            pos == self@.max_err_pos,
    {
        self.max_err_pos
    }

    /// Records a failure at `pos` of something described by `expected`, and fails.
    pub fn mark_failure(&mut self, pos: usize, expected: &'static str) -> (r: RuleResult<()>)
        ensures
            r is Failed,
            final(self)@ == old(self)@.mark(pos as nat, expected@),
    {
        proof {
            use_type_invariant(&*self);
        }
        if self.suppress_fail == 0 {
            if pos > self.max_err_pos {
                self.max_err_pos = pos;
                self.expected = Vec::new();
                assert(described(self.expected@) =~= Set::empty());
            }
            if pos == self.max_err_pos {
                let ghost before = self.expected@;
                let mut known = false;
                let mut i: usize = 0;
                while i < self.expected.len()
                    invariant
                        0 <= i <= self.expected@.len(),
                        self.expected@ == before,
                        known == exists|j: int| 0 <= j < i && #[trigger] before[j]@ == expected@,
                    decreases self.expected@.len() - i,
                {
                    if str_eq(self.expected[i], expected) {
                        known = true;
                    }
                    i += 1;
                }
                if !known {
                    let mut list: Vec<&'static str> = Vec::new();
                    core::mem::swap(&mut self.expected, &mut list);
                    list.push(expected);
                    self.expected = list;
                    assert(described(self.expected@) =~= described(before).insert(expected@)) by {
                        assert forall|what: Seq<char>|
                            described(before).insert(expected@).contains(what) implies described(
                            self.expected@,
                        ).contains(what) by {
                            if what == expected@ {
                                assert(self.expected@[before.len() as int]@ == what);
                            } else {
                                let k = choose|k: int| 0 <= k < before.len() && before[k]@ == what;
                                assert(self.expected@[k]@ == what);
                            }
                        }
                    }
                } else {
                    assert(described(before).insert(expected@) =~= described(before));
                }
            }
        }
        RuleResult::Failed
    }

    /// The descriptions recorded at the furthest position, each once.
    pub fn into_expected(self) -> (list: Vec<&'static str>)
        ensures
            distinct(list@),
            described(list@) == self@.expected,
    {
        proof {
            use_type_invariant(&self);
        }
        self.expected
    }
}

} // verus!
