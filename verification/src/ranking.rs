//! The order of statements by suspiciousness.
//!
//! A statement comes before another when its score is higher, or when the
//! scores are the same number and its line number is lower.

use vstd::prelude::*;
use crate::statement::{statements_of, Score, StatementInfo, StatementRecord};

verus! {

/// Whether `a` must stand before `b` in a ranking.
pub open spec fn outranks(a: StatementRecord, b: StatementRecord) -> bool {
    !b.suspiciousness.at_least(a.suspiciousness) || (a.suspiciousness.same_as(b.suspiciousness)
        && a.line_number < b.line_number)
}

/// Whether every score of `s` has a value.
pub open spec fn all_scores_defined(s: Seq<StatementRecord>) -> bool {
    forall|i: int| 0 <= i < s.len() ==> !(#[trigger] s[i]).suspiciousness.is_undefined()
}

/// Whether `s` is in ranking order: no statement must stand before one that
/// precedes it.
pub open spec fn is_ranked(s: Seq<StatementRecord>) -> bool {
    forall|i: int, j: int| 0 <= i < j < s.len() ==> !outranks(#[trigger] s[j], #[trigger] s[i])
}

/// `s` with `e` put in behind the last statement that `e` must not stand
/// before.
pub open spec fn insert_ranked(s: Seq<StatementRecord>, e: StatementRecord) -> Seq<
    StatementRecord,
>
    decreases s.len(),
{
    if s.len() > 0 && outranks(e, s.last()) {
        insert_ranked(s.drop_last(), e).push(s.last())
    } else {
        s.push(e)
    }
}

/// The ranking of `s`: its statements in ranking order, those that tie in
/// score and line number in the order they had.
pub open spec fn ranked(s: Seq<StatementRecord>) -> Seq<StatementRecord>
    decreases s.len(),
{
    if s.len() == 0 {
        Seq::empty()
    } else {
        insert_ranked(ranked(s.drop_last()), s.last())
    }
}

/// Among scores that have a value, "at least as high" is transitive.
pub proof fn lemma_at_least_transitive(x: Score, y: Score, z: Score)
    requires
        !x.is_undefined(),
        !y.is_undefined(),
        !z.is_undefined(),
        x.at_least(y),
        y.at_least(z),
    ensures
        x.at_least(z),
{
    if !x.is_infinite() {
        let (a, b) = (x.numerator as int, x.denominator as int);
        let (c, d) = (y.numerator as int, y.denominator as int);
        let (e, f) = (z.numerator as int, z.denominator as int);
        assert(a * f >= e * b) by (nonlinear_arith)
            requires
                a >= 0,
                c >= 0,
                e >= 0,
                b > 0,
                d > 0,
                f > 0,
                a * d >= c * b,
                c * f >= e * d,
        {
            assert((a * d) * f >= (c * b) * f);
            assert((c * f) * b >= (e * d) * b);
            assert((a * f) * d >= (e * b) * d);
        }
    }
}

/// Two statements never outrank each other.
pub proof fn lemma_outranks_asymmetric(a: StatementRecord, b: StatementRecord)
    requires
        outranks(a, b),
    ensures
        !outranks(b, a),
{
}

/// "Need not stand behind" is transitive: if `b` does not outrank `a` and
/// `c` does not outrank `b`, then `c` does not outrank `a`.
pub proof fn lemma_order_transitive(a: StatementRecord, b: StatementRecord, c: StatementRecord)
    requires
        !a.suspiciousness.is_undefined(),
        !b.suspiciousness.is_undefined(),
        !c.suspiciousness.is_undefined(),
        !outranks(b, a),
        !outranks(c, b),
    ensures
        !outranks(c, a),
{
    let (x, y, z) = (a.suspiciousness, b.suspiciousness, c.suspiciousness);
    lemma_at_least_transitive(x, y, z);
    if z.at_least(x) {
        lemma_at_least_transitive(z, x, y);
        lemma_at_least_transitive(y, z, x);
    }
}

/// Putting a statement into a ranking gives a ranking that holds the same
/// statements and the new one. The result is the position it went to.
pub proof fn lemma_insert_ranked(s: Seq<StatementRecord>, e: StatementRecord) -> (p: int)
    requires
        is_ranked(s),
        all_scores_defined(s),
        !e.suspiciousness.is_undefined(),
    ensures
        0 <= p <= s.len(),
        insert_ranked(s, e) == s.insert(p, e),
        is_ranked(insert_ranked(s, e)),
        insert_ranked(s, e).to_multiset() == s.to_multiset().insert(e),
    decreases s.len(),
{
    broadcast use vstd::seq_lib::group_to_multiset_ensures;

    let r = insert_ranked(s, e);
    if s.len() > 0 && outranks(e, s.last()) {
        let t = s.drop_last();
        let p = lemma_insert_ranked(t, e);
        let u = insert_ranked(t, e);
        assert(r == u.push(s.last()));
        assert(r =~= s.insert(p, e));
        assert(t.push(s.last()) =~= s);
        assert forall|i: int, j: int| 0 <= i < j < r.len() implies !outranks(
            #[trigger] r[j],
            #[trigger] r[i],
        ) by {
            if j < u.len() {
                assert(r[j] == u[j] && r[i] == u[i]);
            } else if i == p {
                lemma_outranks_asymmetric(e, s.last());
            } else if i < p {
                assert(r[i] == s[i]);
            } else {
                assert(r[i] == s[i - 1]);
            }
        }
        p
    } else {
        assert(r =~= s.insert(s.len() as int, e));
        assert forall|i: int, j: int| 0 <= i < j < r.len() implies !outranks(
            #[trigger] r[j],
            #[trigger] r[i],
        ) by {
            if j == s.len() {
                assert(r[i] == s[i]);
                if i < s.len() - 1 {
                    assert(!outranks(s[s.len() - 1], s[i]));
                    lemma_order_transitive(s[i], s.last(), e);
                }
            } else {
                assert(r[j] == s[j] && r[i] == s[i]);
            }
        }
        s.len() as int
    }
}

/// A ranking is in ranking order and holds the statements it was made of,
/// each as often as before.
pub proof fn lemma_ranked(s: Seq<StatementRecord>)
    requires
        all_scores_defined(s),
    ensures
        is_ranked(ranked(s)),
        ranked(s).to_multiset() == s.to_multiset(),
        ranked(s).len() == s.len(),
        all_scores_defined(ranked(s)),
    decreases s.len(),
{
    broadcast use vstd::seq_lib::group_to_multiset_ensures;

    if s.len() == 0 {
        assert(s =~= Seq::empty());
    } else {
        let t = s.drop_last();
        lemma_ranked(t);
        let p = lemma_insert_ranked(ranked(t), s.last());
        assert(t.push(s.last()) =~= s);
    }
}

/// Every statement of a ranking is one of those it was made of.
pub proof fn lemma_ranked_member(s: Seq<StatementRecord>, i: int)
    requires
        all_scores_defined(s),
        0 <= i < s.len(),
    ensures
        s.contains(ranked(s)[i]),
{
    broadcast use vstd::seq_lib::group_to_multiset_ensures;

    lemma_ranked(s);
    let x = ranked(s)[i];
    assert(ranked(s).contains(x));
    assert(ranked(s).to_multiset().count(x) > 0);
    assert(s.to_multiset().count(x) > 0);
}

/// In a ranking, a statement that stands before another has a score at
/// least as high, and where the two scores are the same number, also where
/// both are infinite, a line number at most as high.
pub proof fn lemma_ranking_order(s: Seq<StatementRecord>, i: int, j: int)
    requires
        is_ranked(s),
        0 <= i < j < s.len(),
    ensures
        s[i].suspiciousness.at_least(s[j].suspiciousness),
        s[i].suspiciousness.same_as(s[j].suspiciousness) ==> s[i].line_number <= s[j].line_number,
{
    assert(!outranks(s[j], s[i]));
}

/// Tells whether `a` must stand before `b` in a ranking.
pub fn comes_before(a: &StatementInfo, b: &StatementInfo) -> (r: bool)
    requires
        !a.suspiciousness.is_undefined(),
        !b.suspiciousness.is_undefined(),
    ensures
        r == outranks(a@, b@),
{
    let a_reaches_b = a.suspiciousness.is_at_least(&b.suspiciousness);
    let b_reaches_a = b.suspiciousness.is_at_least(&a.suspiciousness);
    !b_reaches_a || (a_reaches_b && a.line_number < b.line_number)
}

/// Puts the statements in ranking order: the highest score first, and among
/// statements of one score the lowest line number first.
pub fn rank_statements(statements: Vec<StatementInfo>) -> (r: Vec<StatementInfo>)
    requires
        all_scores_defined(statements_of(statements@)),
    ensures
        statements_of(r@) == ranked(statements_of(statements@)),
        is_ranked(statements_of(r@)),
        statements_of(r@).to_multiset() == statements_of(statements@).to_multiset(),
        r@.len() == statements@.len(),
{
    let ghost input = statements@;
    let ghost records = statements_of(input);
    let mut rest = statements;
    let mut out: Vec<StatementInfo> = Vec::new();
    let ghost mut done: int = 0;
    assert(records.take(0) =~= Seq::empty());
    assert(statements_of(out@) =~= Seq::empty());
    assert(rest@ =~= input.skip(0));
    while rest.len() > 0
        invariant
            0 <= done <= input.len(),
            records == statements_of(input),
            all_scores_defined(records),
            rest@ == input.skip(done),
            statements_of(out@) == ranked(records.take(done)),
            out@.len() == done,
        decreases rest@.len(),
    {
        let e = rest.remove(0);
        proof {
            assert(e == input[done]);
            assert(rest@ =~= input.skip(done + 1));
            assert(records.take(done + 1).drop_last() =~= records.take(done));
            assert(records.take(done + 1).last() == e@);
            assert(!records[done].suspiciousness.is_undefined());
            lemma_ranked(records.take(done));
        }
        let ghost sorted = statements_of(out@);
        let mut p: usize = out.len();
        proof {
            assert(sorted.take(p as int) =~= sorted);
            assert(insert_ranked(sorted, e@) + sorted.skip(p as int) =~= insert_ranked(
                sorted,
                e@,
            ));
        }
        while p > 0 && comes_before(&e, &out[p - 1])
            invariant
                p <= out@.len(),
                sorted == statements_of(out@),
                all_scores_defined(sorted),
                !e.suspiciousness.is_undefined(),
                insert_ranked(sorted, e@) == insert_ranked(sorted.take(p as int), e@)
                    + sorted.skip(p as int),
            decreases p,
        {
            proof {
                assert(sorted.take(p as int).last() == out@[p - 1]@);
                assert(sorted.take(p as int).drop_last() =~= sorted.take(p - 1));
                assert(insert_ranked(sorted.take(p - 1), e@).push(sorted[p - 1]) + sorted.skip(
                    p as int,
                ) =~= insert_ranked(sorted.take(p - 1), e@) + sorted.skip(p - 1));
            }
            p -= 1;
        }
        proof {
            if p > 0 {
                assert(sorted.take(p as int).last() == out@[p - 1]@);
            }
            assert(sorted.take(p as int).push(e@) + sorted.skip(p as int) =~= sorted.insert(
                p as int,
                e@,
            ));
            assert(statements_of(out@.insert(p as int, e)) =~= sorted.insert(p as int, e@));
        }
        out.insert(p, e);
        proof {
            done = done + 1;
        }
    }
    proof {
        assert(records.take(done) =~= records);
        lemma_ranked(records);
    }
    out
}

} // verus!
