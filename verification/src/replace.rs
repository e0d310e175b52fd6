//! Collects the function calls of a script.
//!
//! A script comes as the parser hands it over: one result for each
//! statement at the top of the script, in the order of the source. The calls
//! of all the statements are found and their texts are put together. This is
//! all that is done with them: no call is changed, and nothing of the script
//! but its calls is kept.

use crate::matcher::{lemma_filter_none, referents};
use crate::statement::{Statement, StatementKind};
use vstd::prelude::*;
use vstd::std_specs::iter::IteratorSpec;
use vstd::string::StringExecFns;

verus! {

/// The test for a call of a function.
pub open spec fn is_call() -> spec_fn(Statement) -> bool {
    |s: Statement| s.kind is Call
}

/// The texts of `stmts`, one after the other with nothing between them.
pub open spec fn joined(stmts: Seq<Statement>) -> Seq<char>
    decreases stmts.len(),
{
    if stmts.len() == 0 {
        Seq::empty()
    } else {
        joined(stmts.drop_last()) + stmts.last().text@
    }
}

/// Collects the calls of scripts.
pub struct Replacer {}

impl Replacer {
    /// The calls in the tree of `stmt`, each before the calls among its
    /// arguments.
    pub open spec fn calls_in(stmt: Statement) -> Seq<Statement> {
        stmt.matching(is_call())
    }

    /// The calls of a script: those of its first statement, then those of
    /// the second, and so on.
    pub open spec fn calls_of(script: Seq<Statement>) -> Seq<Statement> {
        Statement::matching_of(script, is_call())
    }

    /// Whether every statement of the script was parsed.
    pub open spec fn all_parsed<E>(parsed: Seq<Result<Statement, E>>) -> bool {
        forall|i: int| 0 <= i < parsed.len() ==> (#[trigger] parsed[i]) is Ok
    }

    /// Whether the first statement that was not parsed stands at `at`.
    pub open spec fn fails_first_at<E>(parsed: Seq<Result<Statement, E>>, at: int) -> bool {
        &&& 0 <= at < parsed.len()
        &&& parsed[at] is Err
        &&& forall|i: int| 0 <= i < at ==> (#[trigger] parsed[i]) is Ok
    }

    /// The place of the first statement that was not parsed, where there is
    /// one.
    pub open spec fn first_failure<E>(parsed: Seq<Result<Statement, E>>) -> int {
        choose|at: int| Self::fails_first_at(parsed, at)
    }

    /// How many statements `correct_functions` takes of a script: all of it
    /// where every statement was parsed, and else the statements up to the
    /// first that was not, with that one.
    pub open spec fn taken<E>(parsed: Seq<Result<Statement, E>>) -> int {
        if Self::all_parsed(parsed) {
            parsed.len() as int
        } else {
            Self::first_failure(parsed) + 1
        }
    }

    /// The statements of a script that was parsed.
    pub open spec fn statements<E>(parsed: Seq<Result<Statement, E>>) -> Seq<Statement> {
        parsed.map_values(|one: Result<Statement, E>| one->Ok_0)
    }

    /// What `correct_functions` makes of a script. Where every statement was
    /// parsed, it is the texts of the calls of the script. Where one was not,
    /// it is the failure of the first such statement, and nothing else.
    pub open spec fn is_correction<E>(
        parsed: Seq<Result<Statement, E>>,
        corrected: Result<String, E>,
    ) -> bool {
        match corrected {
            Ok(text) => Self::all_parsed(parsed) && text@ == joined(
                Self::calls_of(Self::statements(parsed)),
            ),
            Err(failure) => exists|at: int|
                Self::fails_first_at(parsed, at) && #[trigger] parsed[at] == Err::<Statement, E>(
                    failure,
                ),
        }
    }

    /// Finds the calls in the tree of `stmt`: a call before the calls among
    /// its arguments, and the calls of one sub-statement before those of the
    /// next.
    pub fn find_calls(stmt: &Statement) -> (calls: Vec<&Statement>)
        ensures
            referents(calls@) == Self::calls_in(*stmt),
            calls@.len() == stmt.count(is_call()),
    {
        let wanted = |s: &Statement| -> (call: bool)
            ensures
                call == (s.kind is Call),
            { matches!(s.kind, StatementKind::Call) };
        let calls = stmt.find(&wanted);
        proof {
            stmt.lemma_matching_as(&wanted, is_call());
            stmt.lemma_matching_len(is_call());
            assert(referents(calls@).len() == calls@.len());
        }
        calls
    }

    /// Puts the texts of the calls in the tree of `stmt` at the end of
    /// `result`, in the order of `find_calls`.
    pub fn append_calls(result: &mut String, stmt: &Statement)
        ensures
            final(result)@ == old(result)@ + joined(Self::calls_in(*stmt)),
    {
        let ghost start = result@;
        let calls = Self::find_calls(stmt);
        let mut i: usize = 0;
        proof {
            assert(referents(calls@).take(0) =~= Seq::<Statement>::empty());
            assert(start + Seq::<char>::empty() =~= start);
        }
        while i < calls.len()
            invariant
                i <= calls.len(),
                result@ == start + joined(referents(calls@).take(i as int)),
            decreases calls.len() - i,
        {
            let text = calls[i].to_string();
            result.append(text.as_str());
            proof {
                let done = referents(calls@).take(i as int);
                let next = referents(calls@).take(i + 1);
                assert(next.drop_last() =~= done);
                assert(next.last() == *calls@[i as int]);
                assert((start + joined(done)) + text@ =~= start + (joined(done) + text@));
            }
            i += 1;
        }
        proof {
            assert(referents(calls@).take(i as int) =~= referents(calls@));
        }
    }

    /// Collects the calls of a script. `parsed` gives the statements at the
    /// top of the script as the parser made them, one after the other, and
    /// comes to an end. Each is taken as it comes. As soon as one has failed, its failure is
    /// returned as it is and what was collected up to there is dropped;
    /// nothing that comes after the failure is asked for, so it is still to
    /// be had from `parsed`. Where none fails, `parsed` is used up and the
    /// result is the texts of all the calls, statement by statement, with
    /// nothing between them.
    pub fn correct_functions<I, E>(&self, parsed: &mut I) -> (corrected: Result<String, E>) where
        I: Iterator<Item = Result<Statement, E>>,

        requires
            (*old(parsed)).obeys_prophetic_iter_laws(),
            (*old(parsed)).decrease() is Some,
        ensures
            Self::is_correction((*old(parsed)).remaining(), corrected),
            (*final(parsed)).remaining() == (*old(parsed)).remaining().skip(
                Self::taken((*old(parsed)).remaining()),
            ),
            (*final(parsed)).obeys_prophetic_iter_laws(),
            (*final(parsed)).decrease() is Some,
    {
        let mut result = String::new();
        let ghost all = (*parsed).remaining();
        let ghost mut done: int = 0;
        proof {
            assert(all.skip(0) =~= all);
            assert(Self::statements(all.take(0)) =~= Seq::<Statement>::empty());
            lemma_filter_none(is_call());
        }
        loop
            invariant
                (*parsed).obeys_prophetic_iter_laws(),
                (*parsed).decrease() is Some,
                all == (*old(parsed)).remaining(),
                0 <= done <= all.len(),
                (*parsed).remaining() == all.skip(done),
                Self::all_parsed(all.take(done)),
                result@ == joined(Self::calls_of(Self::statements(all.take(done)))),
            decreases (*parsed).decrease()->0,
        {
            match parsed.next() {
                None => {
                    proof {
                        assert(all.take(done) =~= all);
                    }
                    return Ok(result);
                },
                Some(Err(failure)) => {
                    proof {
                        assert(all[done] == all.skip(done)[0]);
                        assert(all.skip(done).drop_first() =~= all.skip(done + 1));
                        assert forall|i: int| 0 <= i < done implies (#[trigger] all[i]) is Ok by {
                            assert(all.take(done)[i] is Ok);
                        }
                        assert(Self::fails_first_at(all, done));
                    }
                    return Err(failure);
                },
                Some(Ok(stmt)) => {
                    Self::append_calls(&mut result, &stmt);
                    proof {
                        assert(all[done] == all.skip(done)[0]);
                        assert(all.skip(done).drop_first() =~= all.skip(done + 1));
                        assert(all.take(done + 1) =~= all.take(done).push(all[done]));
                        assert(Self::statements(all.take(done + 1)) =~= Self::statements(
                            all.take(done),
                        ).push(stmt));
                        Self::lemma_calls_of_push(Self::statements(all.take(done)), stmt);
                        lemma_joined_add(
                            Self::calls_of(Self::statements(all.take(done))),
                            Self::calls_in(stmt),
                        );
                        assert forall|i: int| 0 <= i < done + 1 implies (#[trigger] all.take(
                            done + 1,
                        )[i]) is Ok by {
                            if i < done {
                                assert(all.take(done)[i] is Ok);
                            }
                        }
                        done = done + 1;
                    }
                },
            }
        }
    }

    /// The calls of a script with one more statement at its end are the
    /// calls of the script followed by the calls of that statement.
    pub proof fn lemma_calls_of_push(script: Seq<Statement>, last: Statement)
        ensures
            Self::calls_of(script.push(last)) == Self::calls_of(script) + Self::calls_in(last),
    {
        Statement::lemma_nodes_of_push(script, last);
        Seq::filter_distributes_over_add(Statement::nodes_of(script), last.nodes(), is_call());
    }

    /// No call of a script is left out and none is taken twice: as many
    /// calls are collected as a count of the call nodes in all the
    /// statements of the script gives.
    pub proof fn lemma_every_call_is_found(script: Seq<Statement>)
        ensures
            Self::calls_of(script).len() == Statement::count_of(script, is_call()),
    {
        Statement::lemma_matching_of_len(script, is_call());
    }

    /// A script fails at its first failure. The result is that failure,
    /// whatever comes after it in the script: no statement behind the failure
    /// is taken, and the same result is right for the script cut off behind
    /// the failure, and for that followed by anything else.
    pub proof fn lemma_fails_fast<E>(
        parsed: Seq<Result<Statement, E>>,
        at: int,
        corrected: Result<String, E>,
        other: Seq<Result<Statement, E>>,
    )
        requires
            Self::fails_first_at(parsed, at),
            Self::is_correction(parsed, corrected),
        ensures
            corrected == Err::<String, E>(parsed[at]->Err_0),
            Self::taken(parsed) == at + 1,
            Self::is_correction(parsed.take(at + 1), corrected),
            Self::is_correction(parsed.take(at + 1) + other, corrected),
    {
        assert(!Self::all_parsed(parsed));
        let cut = parsed.take(at + 1);
        assert(Self::fails_first_at(cut, at)) by {
            assert forall|i: int| 0 <= i < at implies (#[trigger] cut[i]) is Ok by {
                assert(parsed[i] is Ok);
            }
        }
        assert(cut[at] == parsed[at]);
        let longer = cut + other;
        assert(Self::fails_first_at(longer, at)) by {
            assert forall|i: int| 0 <= i < at implies (#[trigger] longer[i]) is Ok by {
                assert(parsed[i] is Ok);
            }
        }
        assert(longer[at] == parsed[at]);
    }
}

/// The texts of two runs of statements, one after the other, are the texts
/// of the first run followed by those of the second.
pub proof fn lemma_joined_add(first: Seq<Statement>, second: Seq<Statement>)
    ensures
        joined(first + second) == joined(first) + joined(second),
    decreases second.len(),
{
    if second.len() == 0 {
        assert(first + second =~= first);
        assert(joined(first) + joined(second) =~= joined(first));
    } else {
        lemma_joined_add(first, second.drop_last());
        assert((first + second).drop_last() =~= first + second.drop_last());
        assert((first + second).last() == second.last());
        assert((joined(first) + joined(second.drop_last())) + second.last().text@ =~= joined(first)
            + (joined(second.drop_last()) + second.last().text@));
    }
}

} // verus!
