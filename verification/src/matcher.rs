//! Finding the statements of a tree that a predicate accepts.

use crate::statement::Statement;
use vstd::prelude::*;

verus! {

/// Whether `wanted` can be asked about every statement and never gives two
/// answers for one.
pub open spec fn is_predicate<'a, F: Fn(&'a Statement) -> bool>(wanted: &F) -> bool {
    &&& forall|s: &'a Statement| #[trigger] call_requires(*wanted, (s,))
    &&& forall|s: &'a Statement|
        !(#[trigger] call_ensures(*wanted, (s,), true) && #[trigger] call_ensures(
            *wanted,
            (s,),
            false,
        ))
}

/// The statements that `wanted` answers with `true`.
pub open spec fn accepted_by<'a, F: Fn(&'a Statement) -> bool>(wanted: &F) -> spec_fn(
    Statement,
) -> bool {
    |s: Statement| call_ensures(*wanted, (&s,), true)
}

/// Whether `wanted` has an answer for each statement of `stmts`.
pub open spec fn answered_on<'a, F: Fn(&'a Statement) -> bool>(
    wanted: &F,
    stmts: Seq<Statement>,
) -> bool {
    forall|i: int|
        0 <= i < stmts.len() ==> call_ensures(*wanted, (&#[trigger] stmts[i],), true)
            || call_ensures(*wanted, (&stmts[i],), false)
}

/// The statements that `refs` point to.
pub open spec fn referents(refs: Seq<&Statement>) -> Seq<Statement> {
    refs.map_values(|s: &Statement| *s)
}

impl Statement {
    /// The nodes that `wanted` accepts, in the order of `nodes`.
    pub open spec fn matching(self, wanted: spec_fn(Statement) -> bool) -> Seq<Statement> {
        self.nodes().filter(wanted)
    }

    /// The nodes of the trees in `stmts` that `wanted` accepts, tree after tree.
    pub open spec fn matching_of(stmts: Seq<Statement>, wanted: spec_fn(Statement) -> bool) -> Seq<
        Statement,
    > {
        Self::nodes_of(stmts).filter(wanted)
    }

    /// How many nodes of the tree `wanted` accepts, counted node by node.
    pub open spec fn count(self, wanted: spec_fn(Statement) -> bool) -> nat
        decreases self,
    {
        if wanted(self) {
            1 + Self::count_of(self.children@, wanted)
        } else {
            Self::count_of(self.children@, wanted)
        }
    }

    /// How many nodes of the trees in `stmts` `wanted` accepts.
    pub open spec fn count_of(stmts: Seq<Statement>, wanted: spec_fn(Statement) -> bool) -> nat
        decreases stmts,
    {
        if stmts.len() == 0 {
            0
        } else {
            Self::count_of(stmts.drop_last(), wanted) + stmts.last().count(wanted)
        }
    }

    /// Finds the statements of this tree that `wanted` accepts: `self` where
    /// it is accepted, then what is found in each sub-statement, from the
    /// first to the last. A statement that is accepted is searched like any
    /// other, so one accepted statement inside another is found as well, after
    /// the outer one. `wanted` is asked once about each node, and as many
    /// statements are found as a count over the nodes gives.
    pub fn find<'a, 'b, F>(&'a self, wanted: &'b F) -> (found: Vec<&'a Statement>) where
        F: Fn(&'a Statement) -> bool,

        requires
            is_predicate(wanted),
        ensures
            referents(found@) == self.matching(accepted_by(wanted)),
            found@.len() == self.count(accepted_by(wanted)),
            answered_on(wanted, self.nodes()),
        decreases self,
    {
        let ghost accepted = accepted_by(wanted);
        let mut found: Vec<&'a Statement> = Vec::new();
        if wanted(self) {
            found.push(self);
        }
        proof {
            lemma_filter_one(*self, accepted);
            assert(referents(found@) =~= seq![*self].filter(accepted));
            assert(self.children@.take(0) =~= Seq::<Statement>::empty());
            assert(Self::nodes_of(self.children@.take(0)) =~= Seq::<Statement>::empty());
            lemma_filter_none(accepted);
        }
        let mut i: usize = 0;
        while i < self.children.len()
            invariant
                is_predicate(wanted),
                accepted == accepted_by(wanted),
                i <= self.children.len(),
                referents(found@) == seq![*self].filter(accepted) + Self::matching_of(
                    self.children@.take(i as int),
                    accepted,
                ),
                answered_on(wanted, seq![*self]),
                answered_on(wanted, Self::nodes_of(self.children@.take(i as int))),
            decreases self.children.len() - i,
        {
            let ghost before = found@;
            let mut below = self.children[i].find(wanted);
            let ghost added = below@;
            proof {
                let done = self.children@.take(i as int);
                let child = self.children@[i as int];
                assert(self.children@.take(i + 1) =~= done.push(child));
                Self::lemma_nodes_of_push(done, child);
                Seq::filter_distributes_over_add(Self::nodes_of(done), child.nodes(), accepted);
                lemma_answered_on_add(wanted, Self::nodes_of(done), child.nodes());
            }
            found.append(&mut below);
            proof {
                assert(referents(found@) =~= referents(before) + referents(added));
            }
            i += 1;
        }
        proof {
            assert(self.children@.take(i as int) =~= self.children@);
            Seq::filter_distributes_over_add(seq![*self], Self::nodes_of(self.children@), accepted);
            lemma_answered_on_add(wanted, seq![*self], Self::nodes_of(self.children@));
            self.lemma_matching_len(accepted);
            assert(referents(found@).len() == found@.len());
        }
        found
    }

    /// Searching one tree twice with one predicate finds the same statements
    /// in the same order.
    pub proof fn lemma_find_is_deterministic<'a, F: Fn(&'a Statement) -> bool>(
        self,
        wanted: &F,
        first: Seq<&Statement>,
        second: Seq<&Statement>,
    )
        requires
            referents(first) == self.matching(accepted_by(wanted)),
            referents(second) == self.matching(accepted_by(wanted)),
        ensures
            first == second,
    {
        assert(first.len() == referents(first).len());
        assert(second.len() == referents(second).len());
        assert forall|i: int| 0 <= i < first.len() implies first[i] == second[i] by {
            assert(referents(first)[i] == *first[i]);
            assert(referents(second)[i] == *second[i]);
        }
        assert(first =~= second);
    }

    /// What is found comes in pre-order: the statement itself, where it is
    /// accepted, stands before all that is found inside it, and what is found
    /// in one sub-statement stands before all that is found in the next.
    pub proof fn lemma_matching_is_preorder(self, wanted: spec_fn(Statement) -> bool)
        ensures
            self.matching(wanted) == if wanted(self) {
                seq![self] + Self::matching_of(self.children@, wanted)
            } else {
                Self::matching_of(self.children@, wanted)
            },
            forall|i: int|
                0 <= i < self.children@.len() ==> Self::matching_of(
                    self.children@.take(i + 1),
                    wanted,
                ) == Self::matching_of(self.children@.take(i), wanted) + (
                #[trigger] self.children@[i]).matching(wanted),
            Self::matching_of(self.children@.take(0), wanted) == Seq::<Statement>::empty(),
            Self::matching_of(self.children@.take(self.children@.len() as int), wanted)
                == Self::matching_of(self.children@, wanted),
    {
        lemma_filter_one(self, wanted);
        lemma_filter_none(wanted);
        Seq::filter_distributes_over_add(seq![self], Self::nodes_of(self.children@), wanted);
        assert(Seq::<Statement>::empty() + Self::matching_of(self.children@, wanted)
            =~= Self::matching_of(self.children@, wanted));
        assert(self.children@.take(0) =~= Seq::<Statement>::empty());
        assert(self.children@.take(self.children@.len() as int) =~= self.children@);
        assert forall|i: int| 0 <= i < self.children@.len() implies Self::matching_of(
            self.children@.take(i + 1),
            wanted,
        ) == Self::matching_of(self.children@.take(i), wanted) + (
        #[trigger] self.children@[i]).matching(wanted) by {
            assert(self.children@.take(i + 1) =~= self.children@.take(i).push(self.children@[i]));
            Self::lemma_nodes_of_push(self.children@.take(i), self.children@[i]);
            Seq::filter_distributes_over_add(
                Self::nodes_of(self.children@.take(i)),
                self.children@[i].nodes(),
                wanted,
            );
        }
    }

    /// Of two accepted statements, one inside the other, the outer one is
    /// found first: it is the first that is found in its tree, and the inner
    /// one comes later.
    pub proof fn lemma_outer_before_inner(
        self,
        inner: Statement,
        wanted: spec_fn(Statement) -> bool,
    )
        requires
            wanted(self),
            wanted(inner),
            Self::nodes_of(self.children@).contains(inner),
        ensures
            self.matching(wanted)[0] == self,
            exists|at: int|
                0 < at < self.matching(wanted).len() && #[trigger] self.matching(wanted)[at]
                    == inner,
    {
        self.lemma_matching_is_preorder(wanted);
        let below = Self::nodes_of(self.children@);
        let i = choose|i: int| 0 <= i < below.len() && below[i] == inner;
        below.lemma_filter_contains(wanted, i);
        let found = below.filter(wanted);
        let j = choose|j: int| 0 <= j < found.len() && found[j] == inner;
        assert(self.matching(wanted)[j + 1] == inner);
    }

    /// What is found in two runs of trees, one after the other, is what is
    /// found in the first run followed by what is found in the second.
    pub proof fn lemma_matching_of_add(
        first: Seq<Statement>,
        second: Seq<Statement>,
        wanted: spec_fn(Statement) -> bool,
    )
        ensures
            Self::matching_of(first + second, wanted) == Self::matching_of(first, wanted)
                + Self::matching_of(second, wanted),
    {
        Self::lemma_nodes_of_add(first, second);
        Seq::filter_distributes_over_add(Self::nodes_of(first), Self::nodes_of(second), wanted);
    }

    /// Every accepted node is found, and nothing else: as many statements are
    /// found in a tree as a count over its nodes gives.
    pub proof fn lemma_matching_len(self, wanted: spec_fn(Statement) -> bool)
        ensures
            self.matching(wanted).len() == self.count(wanted),
        decreases self,
    {
        lemma_filter_one(self, wanted);
        Seq::filter_distributes_over_add(seq![self], Self::nodes_of(self.children@), wanted);
        Self::lemma_matching_of_len(self.children@, wanted);
    }

    /// As many statements are found in a run of trees as a count over the
    /// nodes of the trees gives.
    pub proof fn lemma_matching_of_len(stmts: Seq<Statement>, wanted: spec_fn(Statement) -> bool)
        ensures
            Self::matching_of(stmts, wanted).len() == Self::count_of(stmts, wanted),
        decreases stmts,
    {
        if stmts.len() == 0 {
            lemma_filter_none(wanted);
        } else {
            Self::lemma_matching_of_len(stmts.drop_last(), wanted);
            stmts.last().lemma_matching_len(wanted);
            Seq::filter_distributes_over_add(
                Self::nodes_of(stmts.drop_last()),
                stmts.last().nodes(),
                wanted,
            );
        }
    }

    /// Where `wanted` answers as `accepts` says and has an answer for each
    /// node of the tree, it accepts the nodes that `accepts` holds of.
    pub proof fn lemma_matching_as<'a, F: Fn(&'a Statement) -> bool>(
        self,
        wanted: &F,
        accepts: spec_fn(Statement) -> bool,
    )
        requires
            forall|s: &'a Statement, answer: bool| #[trigger]
                call_ensures(*wanted, (s,), answer) ==> answer == accepts(*s),
            answered_on(wanted, self.nodes()),
        ensures
            self.matching(accepted_by(wanted)) == self.matching(accepts),
    {
        let nodes = self.nodes();
        assert forall|i: int| 0 <= i < nodes.len() implies accepted_by(wanted)(nodes[i])
            == accepts(nodes[i]) by {
            let s = &nodes[i];
            assert(call_ensures(*wanted, (s,), true) || call_ensures(*wanted, (s,), false));
        }
        lemma_filter_agree(nodes, accepted_by(wanted), accepts);
    }
}

proof fn lemma_answered_on_add<'a, F: Fn(&'a Statement) -> bool>(
    wanted: &F,
    first: Seq<Statement>,
    second: Seq<Statement>,
)
    requires
        answered_on(wanted, first),
        answered_on(wanted, second),
    ensures
        answered_on(wanted, first + second),
{
    assert forall|i: int| 0 <= i < (first + second).len() implies call_ensures(
        *wanted,
        (&#[trigger] (first + second)[i],),
        true,
    ) || call_ensures(*wanted, (&(first + second)[i],), false) by {
        if i < first.len() {
            assert((first + second)[i] == first[i]);
        } else {
            assert((first + second)[i] == second[i - first.len()]);
        }
    }
}

proof fn lemma_filter_agree(
    stmts: Seq<Statement>,
    first: spec_fn(Statement) -> bool,
    second: spec_fn(Statement) -> bool,
)
    requires
        forall|i: int| 0 <= i < stmts.len() ==> first(stmts[i]) == second(stmts[i]),
    ensures
        stmts.filter(first) == stmts.filter(second),
    decreases stmts.len(),
{
    reveal(Seq::filter);
    if stmts.len() > 0 {
        lemma_filter_agree(stmts.drop_last(), first, second);
    }
}

pub(crate) proof fn lemma_filter_none(wanted: spec_fn(Statement) -> bool)
    ensures
        Seq::<Statement>::empty().filter(wanted) == Seq::<Statement>::empty(),
{
    reveal(Seq::filter);
}

pub(crate) proof fn lemma_filter_one(s: Statement, wanted: spec_fn(Statement) -> bool)
    ensures
        seq![s].filter(wanted) == if wanted(s) {
            seq![s]
        } else {
            Seq::<Statement>::empty()
        },
{
    reveal(Seq::filter);
    assert(seq![s].drop_last() =~= Seq::<Statement>::empty());
    lemma_filter_none(wanted);
    assert(Seq::<Statement>::empty().push(s) =~= seq![s]);
}

} // verus!
