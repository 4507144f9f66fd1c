//! The order of the proofs of a presentation.
//!
//! The prover takes the statements in three passes, each in the order of the
//! schema, and appends a proof for each statement that a pass takes. With
//! statements of different names, the proof of a statement is found by its
//! name where the prover put it.

use vstd::prelude::*;
use crate::presentation::lookup::{first_named, lemma_first};
use crate::presentation::parts::Presentation;
use crate::presentation::statement::{PresentationSchema, Statement, statement_names};

verus! {

/// The names of those of the first `k` statements that a pass takes, in order.
pub open spec fn pass_names(statements: Seq<Statement>, pass: int, k: int) -> Seq<Seq<char>>
    decreases k,
{
    if k <= 0 {
        Seq::empty()
    } else if Presentation::pass_of(&statements[k - 1]) == pass {
        pass_names(statements, pass, k - 1).push(statements[k - 1].name())
    } else {
        pass_names(statements, pass, k - 1)
    }
}

/// The names of the statements in the order in which their proofs are made.
pub open spec fn ordered_names(statements: Seq<Statement>) -> Seq<Seq<char>> {
    let n = statements.len() as int;
    pass_names(statements, 0, n) + pass_names(statements, 1, n) + pass_names(statements, 2, n)
}

/// How many statements a pass takes among the first `k`.
pub open spec fn rank(statements: Seq<Statement>, pass: int, k: int) -> int {
    pass_names(statements, pass, k).len() as int
}

/// The place of the proof of statement `i` among the proofs.
pub open spec fn place(statements: Seq<Statement>, i: int) -> int {
    let n = statements.len() as int;
    let pass = Presentation::pass_of(&statements[i]);
    (if pass >= 1 {
        rank(statements, 0, n)
    } else {
        0
    }) + (if pass >= 2 {
        rank(statements, 1, n)
    } else {
        0
    }) + rank(statements, pass, i)
}

/// A pass takes more statements among more.
pub proof fn lemma_rank_grows(statements: Seq<Statement>, pass: int, j: int, k: int)
    requires
        0 <= j <= k <= statements.len(),
    ensures
        rank(statements, pass, j) <= rank(statements, pass, k),
        j < k && Presentation::pass_of(&statements[j]) == pass ==> rank(statements, pass, j)
            < rank(statements, pass, k) && pass_names(statements, pass, k)[rank(
            statements,
            pass,
            j,
        )] == statements[j].name(),
    decreases k - j,
{
    if j < k {
        lemma_rank_grows(statements, pass, j, k - 1);
        if j == k - 1 {
        }
    }
}

/// Every name that a pass lists is that of a statement that the pass
/// takes, and stands where that statement's rank says.
pub proof fn lemma_listed(statements: Seq<Statement>, pass: int, k: int, x: int)
    requires
        0 <= k <= statements.len(),
        0 <= x < rank(statements, pass, k),
    ensures
        exists|j: int|
            0 <= j < k && Presentation::pass_of(&#[trigger] statements[j]) == pass && rank(
                statements,
                pass,
                j,
            ) == x && pass_names(statements, pass, k)[x] == statements[j].name(),
    decreases k,
{
    if k > 0 {
        if Presentation::pass_of(&statements[k - 1]) == pass && x == rank(
            statements,
            pass,
            k - 1,
        ) {
            assert(Presentation::pass_of(&statements[k - 1]) == pass);
        } else {
            lemma_listed(statements, pass, k - 1, x);
            let j = choose|j: int|
                0 <= j < k - 1 && Presentation::pass_of(&#[trigger] statements[j]) == pass
                    && rank(statements, pass, j) == x && pass_names(statements, pass, k - 1)[x]
                    == statements[j].name();
            assert(Presentation::pass_of(&statements[j]) == pass);
        }
    }
}

/// Among statements of different names, a statement is the first of its name.
pub proof fn lemma_statement_found(schema: PresentationSchema, i: int)
    requires
        schema.distinct(),
        0 <= i < schema.statements.len(),
    ensures
        schema.statement_of(schema.statements[i].name()) == Some(schema.statements[i]),
        first_named(statement_names(schema.statements@), schema.statements[i].name()) == Some(i),
{
    let names = statement_names(schema.statements@);
    let id = schema.statements[i].name();
    lemma_first(names, id, 0);
    match first_named(names, id) {
        Some(k) => {
            assert(names[k] == schema.statements[k].name());
            if k < i {
                assert(schema.statements[k].name() != schema.statements[i].name());
            }
            if i < k {
                assert(names[i] == id);
            }
        },
        None => {
            assert(names[i] == id);
        },
    }
}

/// Among statements of different names, the name of a statement stands in
/// the list of its pass where its rank says, and in the list of no other pass.
pub proof fn lemma_pass_found(schema: PresentationSchema, pass: int, i: int)
    requires
        schema.distinct(),
        0 <= i < schema.statements.len(),
    ensures
        Presentation::pass_of(&schema.statements[i]) == pass ==> first_named(
            pass_names(schema.statements@, pass, schema.statements.len() as int),
            schema.statements[i].name(),
        ) == Some(rank(schema.statements@, pass, i)),
        Presentation::pass_of(&schema.statements[i]) != pass ==> first_named(
            pass_names(schema.statements@, pass, schema.statements.len() as int),
            schema.statements[i].name(),
        ) is None,
{
    let st = schema.statements@;
    let n = st.len() as int;
    let names = pass_names(st, pass, n);
    let id = st[i].name();
    lemma_first(names, id, 0);
    match first_named(names, id) {
        Some(x) => {
            lemma_listed(st, pass, n, x);
            let j = choose|j: int|
                0 <= j < n && Presentation::pass_of(&#[trigger] st[j]) == pass && rank(st, pass, j)
                    == x && names[x] == st[j].name();
            if j < i {
                assert(schema.statements[j].name() != schema.statements[i].name());
            }
            if i < j {
                assert(schema.statements[i].name() != schema.statements[j].name());
            }
        },
        None => {
            if Presentation::pass_of(&st[i]) == pass {
                lemma_rank_grows(st, pass, i, n);
                assert(names[rank(st, pass, i)] == id);
            }
        },
    }
}

/// A name is found in two lists, one after the other, where it is found
/// in the first, or else after the first where it is found in the second.
pub proof fn lemma_first_in_both(a: Seq<Seq<char>>, b: Seq<Seq<char>>, id: Seq<char>)
    ensures
        first_named(a + b, id) == (match first_named(a, id) {
            Some(i) => Some(i),
            None => match first_named(b, id) {
                Some(j) => Some(a.len() + j),
                None => None,
            },
        }),
{
    let all = a + b;
    lemma_first(all, id, 0);
    lemma_first(a, id, 0);
    lemma_first(b, id, 0);
    match first_named(a, id) {
        Some(i) => {
            assert(all[i] == id);
            match first_named(all, id) {
                Some(k) => {
                    if k < i {
                        assert(a[k] == all[k]);
                    }
                },
                None => {},
            }
        },
        None => {
            match first_named(b, id) {
                Some(j) => {
                    assert(all[a.len() + j] == id);
                    match first_named(all, id) {
                        Some(k) => {
                            if k < a.len() {
                                assert(a[k] == all[k]);
                            } else if k < a.len() + j {
                                assert(b[k - a.len()] == all[k]);
                            }
                        },
                        None => {},
                    }
                },
                None => {
                    match first_named(all, id) {
                        Some(k) => {
                            if k < a.len() {
                                assert(a[k] == all[k]);
                            } else {
                                assert(b[k - a.len()] == all[k]);
                            }
                        },
                        None => {},
                    }
                },
            }
        },
    }
}

/// Among statements of different names, the name of a statement stands
/// among the names in the order of the proofs at the statement's place.
pub proof fn lemma_place_found(schema: PresentationSchema, i: int)
    requires
        schema.distinct(),
        0 <= i < schema.statements.len(),
    ensures
        first_named(ordered_names(schema.statements@), schema.statements[i].name()) == Some(
            place(schema.statements@, i),
        ),
        0 <= place(schema.statements@, i) < ordered_names(schema.statements@).len(),
{
    let st = schema.statements@;
    let n = st.len() as int;
    let id = st[i].name();
    lemma_pass_found(schema, 0, i);
    lemma_pass_found(schema, 1, i);
    lemma_pass_found(schema, 2, i);
    let a = pass_names(st, 0, n);
    let b = pass_names(st, 1, n);
    let c = pass_names(st, 2, n);
    lemma_first_in_both(a, b, id);
    lemma_first_in_both(a + b, c, id);
    lemma_rank_grows(st, Presentation::pass_of(&st[i]), i, n);
}

} // verus!
