//! The clause tree: a boolean (AND/OR/NOT) combination of field predicates,
//! and its evaluation against the leaf values read from a record.
//!
//! Evaluation is split in two: a thin pass collects one runtime value per
//! leaf through the record's accessor, and `eval_tree` — exact down to its
//! specification — combines the per-leaf matches with boolean logic.

use vstd::prelude::*;

use crate::value::ClauseValue;
use crate::value::Op;
use crate::value::Value;
use crate::value::clause_matches;
use crate::value::spec_clause_matches;

verus! {

/// A single field/operator/value predicate.
#[derive(Debug)]
pub struct Clause {
    /// The schema field the predicate reads.
    pub field: String,
    /// The comparison operator.
    pub op: Op,
    /// The literal the field value is compared against.
    pub value: ClauseValue,
}

/// A node of the boolean clause tree.
#[derive(Debug)]
pub enum ClauseNode {
    /// One predicate.
    Leaf(Clause),
    /// True when every child is true (true when empty).
    And(Vec<ClauseNode>),
    /// True when some child is true (false when empty).
    Or(Vec<ClauseNode>),
    /// True when the child is false.
    Not(Box<ClauseNode>),
}

/// Well-formedness of a tree: every leaf's literal is well-formed.
pub open spec fn spec_node_wf(n: ClauseNode) -> bool
    decreases n,
{
    match n {
        ClauseNode::Leaf(c) => c.value.wf(),
        ClauseNode::Not(b) => spec_node_wf(*b),
        ClauseNode::And(cs) => spec_nodes_wf(cs@),
        ClauseNode::Or(cs) => spec_nodes_wf(cs@),
    }
}

/// Well-formedness of a list of subtrees.
pub open spec fn spec_nodes_wf(s: Seq<ClauseNode>) -> bool
    decreases s,
{
    s.len() == 0 || (spec_node_wf(s[0]) && spec_nodes_wf(s.drop_first()))
}

/// The clauses at the leaves of a tree, left to right.
pub open spec fn spec_leaves(n: ClauseNode) -> Seq<Clause>
    decreases n,
{
    match n {
        ClauseNode::Leaf(c) => seq![c],
        ClauseNode::Not(b) => spec_leaves(*b),
        ClauseNode::And(cs) => spec_leaves_seq(cs@),
        ClauseNode::Or(cs) => spec_leaves_seq(cs@),
    }
}

/// The leaves of a list of subtrees, left to right.
pub open spec fn spec_leaves_seq(s: Seq<ClauseNode>) -> Seq<Clause>
    decreases s,
{
    if s.len() == 0 {
        Seq::empty()
    } else {
        spec_leaves(s[0]) + spec_leaves_seq(s.drop_first())
    }
}

/// The field names of a tree's leaves, left to right.
pub open spec fn spec_leaf_fields(n: ClauseNode) -> Seq<Seq<char>> {
    spec_leaves(n).map_values(|c: Clause| c.field@)
}

/// Height of a tree, used as the recursion measure of the evaluator.
pub open spec fn spec_height(n: ClauseNode) -> nat
    decreases n,
{
    match n {
        ClauseNode::Leaf(_) => 0,
        ClauseNode::Not(b) => spec_height(*b) + 1,
        ClauseNode::And(cs) => spec_height_seq(cs@) + 1,
        ClauseNode::Or(cs) => spec_height_seq(cs@) + 1,
    }
}

/// Largest height among a list of subtrees.
pub open spec fn spec_height_seq(s: Seq<ClauseNode>) -> nat
    decreases s,
{
    if s.len() == 0 {
        0
    } else if spec_height(s[0]) >= spec_height_seq(s.drop_first()) {
        spec_height(s[0])
    } else {
        spec_height_seq(s.drop_first())
    }
}

/// Each subtree of a list is at most as high as the list's height.
proof fn lemma_height_seq_index(s: Seq<ClauseNode>, i: int)
    requires
        0 <= i < s.len(),
    ensures
        spec_height(s[i]) <= spec_height_seq(s),
    decreases s,
{
    if i > 0 {
        lemma_height_seq_index(s.drop_first(), i - 1);
    }
}

/// The truth value of a tree over the values of its leaves, given left to
/// right: a leaf compares its value per its operator, `And`/`Or`/`Not` apply
/// boolean logic.
pub open spec fn spec_eval(n: ClauseNode, vals: Seq<Value>) -> bool
    decreases n,
{
    match n {
        ClauseNode::Leaf(c) => spec_clause_matches(vals[0], c.op, c.value),
        ClauseNode::Not(b) => !spec_eval(*b, vals),
        ClauseNode::And(cs) => spec_eval_all(cs@, vals),
        ClauseNode::Or(cs) => spec_eval_any(cs@, vals),
    }
}

/// Conjunction over a list of subtrees, each consuming its own leaves' values.
pub open spec fn spec_eval_all(s: Seq<ClauseNode>, vals: Seq<Value>) -> bool
    decreases s,
{
    if s.len() == 0 {
        true
    } else {
        let k = spec_leaves(s[0]).len() as int;
        spec_eval(s[0], vals.take(k)) && spec_eval_all(s.drop_first(), vals.skip(k))
    }
}

/// Disjunction over a list of subtrees, each consuming its own leaves' values.
pub open spec fn spec_eval_any(s: Seq<ClauseNode>, vals: Seq<Value>) -> bool
    decreases s,
{
    if s.len() == 0 {
        false
    } else {
        let k = spec_leaves(s[0]).len() as int;
        spec_eval(s[0], vals.take(k)) || spec_eval_any(s.drop_first(), vals.skip(k))
    }
}

/// Splitting a list of subtrees off its last element splits its leaves.
proof fn lemma_leaves_seq_snoc(s: Seq<ClauseNode>, x: ClauseNode)
    ensures
        spec_leaves_seq(s.push(x)) == spec_leaves_seq(s) + spec_leaves(x),
    decreases s,
{
    let p = s.push(x);
    if s.len() == 0 {
        assert(p[0] == x);
        assert(p.drop_first().len() == 0);
        assert(spec_leaves_seq(p) == spec_leaves(x) + spec_leaves_seq(p.drop_first()));
        assert(spec_leaves_seq(p) =~= spec_leaves_seq(s) + spec_leaves(x));
    } else {
        lemma_leaves_seq_snoc(s.drop_first(), x);
        assert(p.drop_first() =~= s.drop_first().push(x));
        assert(p[0] == s[0]);
        assert(spec_leaves_seq(p) == spec_leaves(s[0]) + spec_leaves_seq(s.drop_first().push(x)));
        assert(spec_leaves_seq(p) =~= spec_leaves_seq(s) + spec_leaves(x));
    }
}

/// Well-formedness of a list of subtrees extended by one more.
pub proof fn lemma_nodes_wf_snoc(s: Seq<ClauseNode>, x: ClauseNode)
    ensures
        spec_nodes_wf(s.push(x)) == (spec_nodes_wf(s) && spec_node_wf(x)),
    decreases s,
{
    let p = s.push(x);
    if s.len() == 0 {
        assert(p[0] == x);
        assert(p.drop_first().len() == 0);
        assert(spec_nodes_wf(p.drop_first()));
    } else {
        lemma_nodes_wf_snoc(s.drop_first(), x);
        assert(p.drop_first() =~= s.drop_first().push(x));
        assert(p[0] == s[0]);
    }
}

/// A subtree's truth value reads only the first `spec_leaves(n).len()` of the
/// values handed to it.
proof fn lemma_eval_prefix(n: ClauseNode, vals: Seq<Value>)
    requires
        spec_leaves(n).len() <= vals.len(),
    ensures
        spec_eval(n, vals.take(spec_leaves(n).len() as int)) == spec_eval(n, vals),
    decreases n, 1int,
{
    match n {
        ClauseNode::Leaf(c) => {
            assert(vals.take(1)[0] == vals[0]);
        },
        ClauseNode::Not(b) => {
            lemma_eval_prefix(*b, vals);
        },
        ClauseNode::And(cs) => {
            lemma_eval_seq_prefix_all(cs@, vals);
        },
        ClauseNode::Or(cs) => {
            lemma_eval_seq_prefix_any(cs@, vals);
        },
    }
}

/// As `lemma_eval_prefix`, for conjunctions over subtree lists.
proof fn lemma_eval_seq_prefix_all(s: Seq<ClauseNode>, vals: Seq<Value>)
    requires
        spec_leaves_seq(s).len() <= vals.len(),
    ensures
        spec_eval_all(s, vals.take(spec_leaves_seq(s).len() as int)) == spec_eval_all(s, vals),
    decreases s, 0int,
{
    if s.len() > 0 {
        let k = spec_leaves(s[0]).len() as int;
        let kk = spec_leaves_seq(s).len() as int;
        assert(k <= kk) by {
            lemma_leaves_seq_nonneg(s.drop_first());
        }
        lemma_eval_seq_prefix_all(s.drop_first(), vals.skip(k));
        lemma_eval_prefix(s[0], vals);
        assert(vals.take(kk).take(k) =~= vals.take(k));
        assert(vals.take(kk).skip(k) =~= vals.skip(k).take(
            spec_leaves_seq(s.drop_first()).len() as int,
        ));
        lemma_eval_prefix(s[0], vals.take(kk));
        assert(vals.take(kk).take(k) =~= vals.take(k));
    }
}

/// As `lemma_eval_prefix`, for disjunctions over subtree lists.
proof fn lemma_eval_seq_prefix_any(s: Seq<ClauseNode>, vals: Seq<Value>)
    requires
        spec_leaves_seq(s).len() <= vals.len(),
    ensures
        spec_eval_any(s, vals.take(spec_leaves_seq(s).len() as int)) == spec_eval_any(s, vals),
    decreases s, 0int,
{
    if s.len() > 0 {
        let k = spec_leaves(s[0]).len() as int;
        let kk = spec_leaves_seq(s).len() as int;
        assert(k <= kk) by {
            lemma_leaves_seq_nonneg(s.drop_first());
        }
        lemma_eval_seq_prefix_any(s.drop_first(), vals.skip(k));
        lemma_eval_prefix(s[0], vals);
        assert(vals.take(kk).take(k) =~= vals.take(k));
        assert(vals.take(kk).skip(k) =~= vals.skip(k).take(
            spec_leaves_seq(s.drop_first()).len() as int,
        ));
        lemma_eval_prefix(s[0], vals.take(kk));
    }
}

/// Conjunction over one more subtree: the extra subtree reads the values
/// after those of the earlier ones.
proof fn lemma_eval_all_snoc(s: Seq<ClauseNode>, x: ClauseNode, vals: Seq<Value>)
    requires
        spec_leaves_seq(s).len() + spec_leaves(x).len() <= vals.len(),
    ensures
        spec_eval_all(s.push(x), vals) == (spec_eval_all(
            s,
            vals.take(spec_leaves_seq(s).len() as int),
        ) && spec_eval(x, vals.skip(spec_leaves_seq(s).len() as int))),
    decreases s,
{
    let p = s.push(x);
    let kk = spec_leaves_seq(s).len() as int;
    if s.len() == 0 {
        assert(p[0] == x);
        assert(p.drop_first().len() == 0);
        assert(vals.skip(0) =~= vals);
        let k = spec_leaves(x).len() as int;
        lemma_eval_prefix(x, vals);
        assert(spec_eval_all(p, vals) == (spec_eval(x, vals.take(k)) && spec_eval_all(
            p.drop_first(),
            vals.skip(k),
        )));
        assert(vals.take(0) =~= Seq::<Value>::empty());
    } else {
        let k = spec_leaves(s[0]).len() as int;
        assert(k <= kk) by {
            lemma_leaves_seq_nonneg(s.drop_first());
        }
        lemma_eval_all_snoc(s.drop_first(), x, vals.skip(k));
        assert(p.drop_first() =~= s.drop_first().push(x));
        assert(p[0] == s[0]);
        lemma_leaves_seq_snoc(s.drop_first(), x);
        assert(vals.skip(k).take(spec_leaves_seq(s.drop_first()).len() as int) =~= vals.take(
            kk,
        ).skip(k));
        assert(vals.skip(k).skip(spec_leaves_seq(s.drop_first()).len() as int) =~= vals.skip(kk));
        assert(vals.take(kk).take(k) =~= vals.take(k));
        lemma_eval_prefix(s[0], vals.take(kk));
        lemma_eval_prefix(s[0], vals);
        assert(vals.take(kk).take(k) =~= vals.take(k));
    }
}

/// Disjunction over one more subtree.
proof fn lemma_eval_any_snoc(s: Seq<ClauseNode>, x: ClauseNode, vals: Seq<Value>)
    requires
        spec_leaves_seq(s).len() + spec_leaves(x).len() <= vals.len(),
    ensures
        spec_eval_any(s.push(x), vals) == (spec_eval_any(
            s,
            vals.take(spec_leaves_seq(s).len() as int),
        ) || spec_eval(x, vals.skip(spec_leaves_seq(s).len() as int))),
    decreases s,
{
    let p = s.push(x);
    let kk = spec_leaves_seq(s).len() as int;
    if s.len() == 0 {
        assert(p[0] == x);
        assert(p.drop_first().len() == 0);
        assert(vals.skip(0) =~= vals);
        let k = spec_leaves(x).len() as int;
        lemma_eval_prefix(x, vals);
        assert(spec_eval_any(p, vals) == (spec_eval(x, vals.take(k)) || spec_eval_any(
            p.drop_first(),
            vals.skip(k),
        )));
        assert(vals.take(0) =~= Seq::<Value>::empty());
    } else {
        let k = spec_leaves(s[0]).len() as int;
        assert(k <= kk) by {
            lemma_leaves_seq_nonneg(s.drop_first());
        }
        lemma_eval_any_snoc(s.drop_first(), x, vals.skip(k));
        assert(p.drop_first() =~= s.drop_first().push(x));
        assert(p[0] == s[0]);
        lemma_leaves_seq_snoc(s.drop_first(), x);
        assert(vals.skip(k).take(spec_leaves_seq(s.drop_first()).len() as int) =~= vals.take(
            kk,
        ).skip(k));
        assert(vals.skip(k).skip(spec_leaves_seq(s.drop_first()).len() as int) =~= vals.skip(kk));
        assert(vals.take(kk).take(k) =~= vals.take(k));
        lemma_eval_prefix(s[0], vals.take(kk));
        lemma_eval_prefix(s[0], vals);
        assert(vals.take(kk).take(k) =~= vals.take(k));
    }
}

/// Leaf counts are non-negative (trivially, by type).
proof fn lemma_leaves_seq_nonneg(s: Seq<ClauseNode>)
    ensures
        spec_leaves_seq(s).len() >= 0,
{
}

/// Evaluates the subtree `n` against the leaf values starting at `start`;
/// returns the truth value and the position after the subtree's leaves.
fn eval_at(n: &ClauseNode, vals: &Vec<Value>, start: usize) -> (res: (bool, usize))
    requires
        spec_node_wf(*n),
        start + spec_leaves(*n).len() <= vals@.len(),
    ensures
        res.1 == start + spec_leaves(*n).len(),
        res.0 == spec_eval(*n, vals@.subrange(start as int, res.1 as int)),
    decreases spec_height(*n),
{
    match n {
        ClauseNode::Leaf(c) => {
            let n_vals = vals.len();
            let b = clause_matches(&vals[start], c.op, &c.value);
            proof {
                assert(start + 1 <= n_vals);
                let sub = vals@.subrange(start as int, start + 1 as int);
                assert(sub.len() == 1 && sub[0] == vals@[start as int]);
            }
            (b, start + 1)
        },
        ClauseNode::Not(b) => {
            let (inner, off) = eval_at(b, vals, start);
            (!inner, off)
        },
        ClauseNode::And(cs) => {
            let mut i: usize = 0;
            let mut off: usize = start;
            let mut ok = true;
            proof {
                nodes_prefix_facts(cs@, 0);
                assert(cs@.take(0) =~= Seq::<ClauseNode>::empty());
                assert(vals@.subrange(start as int, start as int) =~= Seq::<Value>::empty());
            }
            while i < cs.len()
                invariant
                    i <= cs@.len(),
                    spec_nodes_wf(cs@),
                    cs@.take(cs@.len() as int) == cs@,
                    spec_leaves(*n) == spec_leaves_seq(cs@),
                    spec_height_seq(cs@) < spec_height(*n),
                    start + spec_leaves_seq(cs@).len() <= vals@.len(),
                    off == start + spec_leaves_seq(cs@.take(i as int)).len(),
                    ok == spec_eval_all(
                        cs@.take(i as int),
                        vals@.subrange(start as int, off as int),
                    ),
                decreases cs@.len() - i,
            {
                proof {
                    nodes_prefix_facts(cs@, i as int);
                    lemma_height_seq_index(cs@, i as int);
                }
                let (b, off2) = eval_at(&cs[i], vals, off);
                proof {
                    lemma_leaves_seq_snoc(cs@.take(i as int), cs@[i as int]);
                    lemma_eval_all_snoc(
                        cs@.take(i as int),
                        cs@[i as int],
                        vals@.subrange(start as int, off2 as int),
                    );
                    assert(cs@.take(i + 1 as int) =~= cs@.take(i as int).push(cs@[i as int]));
                    let whole = vals@.subrange(start as int, off2 as int);
                    assert(whole.take(spec_leaves_seq(cs@.take(i as int)).len() as int)
                        =~= vals@.subrange(start as int, off as int));
                    assert(whole.skip(spec_leaves_seq(cs@.take(i as int)).len() as int)
                        =~= vals@.subrange(off as int, off2 as int));
                }
                ok = ok && b;
                off = off2;
                i = i + 1;
            }
            proof {
                assert(cs@.take(cs@.len() as int) =~= cs@);
            }
            (ok, off)
        },
        ClauseNode::Or(cs) => {
            let mut i: usize = 0;
            let mut off: usize = start;
            let mut any = false;
            proof {
                nodes_prefix_facts(cs@, 0);
                assert(cs@.take(0) =~= Seq::<ClauseNode>::empty());
                assert(vals@.subrange(start as int, start as int) =~= Seq::<Value>::empty());
            }
            while i < cs.len()
                invariant
                    i <= cs@.len(),
                    spec_nodes_wf(cs@),
                    cs@.take(cs@.len() as int) == cs@,
                    spec_leaves(*n) == spec_leaves_seq(cs@),
                    spec_height_seq(cs@) < spec_height(*n),
                    start + spec_leaves_seq(cs@).len() <= vals@.len(),
                    off == start + spec_leaves_seq(cs@.take(i as int)).len(),
                    any == spec_eval_any(
                        cs@.take(i as int),
                        vals@.subrange(start as int, off as int),
                    ),
                decreases cs@.len() - i,
            {
                proof {
                    nodes_prefix_facts(cs@, i as int);
                    lemma_height_seq_index(cs@, i as int);
                }
                let (b, off2) = eval_at(&cs[i], vals, off);
                proof {
                    lemma_leaves_seq_snoc(cs@.take(i as int), cs@[i as int]);
                    lemma_eval_any_snoc(
                        cs@.take(i as int),
                        cs@[i as int],
                        vals@.subrange(start as int, off2 as int),
                    );
                    assert(cs@.take(i + 1 as int) =~= cs@.take(i as int).push(cs@[i as int]));
                    let whole = vals@.subrange(start as int, off2 as int);
                    assert(whole.take(spec_leaves_seq(cs@.take(i as int)).len() as int)
                        =~= vals@.subrange(start as int, off as int));
                    assert(whole.skip(spec_leaves_seq(cs@.take(i as int)).len() as int)
                        =~= vals@.subrange(off as int, off2 as int));
                }
                any = any || b;
                off = off2;
                i = i + 1;
            }
            proof {
                assert(cs@.take(cs@.len() as int) =~= cs@);
            }
            (any, off)
        },
    }
}

/// Facts carried from a list of well-formed subtrees to its `i`-th element
/// and prefixes: the element is well-formed and its leaves sit between those
/// of the elements before and after it.
proof fn nodes_prefix_facts(s: Seq<ClauseNode>, i: int)
    requires
        spec_nodes_wf(s),
        0 <= i <= s.len(),
    ensures
        i < s.len() ==> spec_node_wf(s[i]),
        i < s.len() ==> spec_leaves_seq(s.take(i)).len() + spec_leaves(s[i]).len()
            <= spec_leaves_seq(s).len(),
        i == s.len() ==> spec_leaves_seq(s.take(i)) == spec_leaves_seq(s),
    decreases s,
{
    if s.len() > 0 {
        if i == 0 {
            lemma_leaves_seq_len_split(s, 0);
        } else {
            nodes_prefix_facts(s.drop_first(), i - 1);
            lemma_leaves_seq_len_split(s, i);
        }
        if i < s.len() {
            lemma_nodes_wf_index(s, i);
        }
    } else {
        assert(s.take(0) =~= s);
    }
}

/// Every element of a well-formed subtree list is well-formed.
proof fn lemma_nodes_wf_index(s: Seq<ClauseNode>, i: int)
    requires
        spec_nodes_wf(s),
        0 <= i < s.len(),
    ensures
        spec_node_wf(s[i]),
    decreases s,
{
    if i > 0 {
        lemma_nodes_wf_index(s.drop_first(), i - 1);
    }
}

/// The leaves of a prefix, the element after it, and the rest add up.
proof fn lemma_leaves_seq_len_split(s: Seq<ClauseNode>, i: int)
    requires
        0 <= i <= s.len(),
    ensures
        i < s.len() ==> spec_leaves_seq(s.take(i)).len() + spec_leaves(s[i]).len()
            <= spec_leaves_seq(s).len(),
        i == s.len() ==> spec_leaves_seq(s.take(i)) == spec_leaves_seq(s),
    decreases s,
{
    if s.len() == 0 {
        assert(s.take(0) =~= s);
    } else if i == 0 {
        assert(s.take(0) =~= Seq::<ClauseNode>::empty());
        lemma_leaves_seq_nonneg(s.drop_first());
    } else {
        lemma_leaves_seq_len_split(s.drop_first(), i - 1);
        assert(s.take(i).drop_first() =~= s.drop_first().take(i - 1));
        assert(s.take(i)[0] == s[0]);
        if i == s.len() {
            assert(spec_leaves_seq(s.take(i)) == spec_leaves(s[0]) + spec_leaves_seq(
                s.take(i).drop_first(),
            ));
        }
    }
}


/// Evaluates a well-formed tree against one value per leaf, in leaf order.
pub fn eval_tree(n: &ClauseNode, vals: &Vec<Value>) -> (r: bool)
    requires
        spec_node_wf(*n),
        vals@.len() == spec_leaves(*n).len(),
    ensures
        r == spec_eval(*n, vals@),
{
    let (b, off) = eval_at(n, vals, 0);
    proof {
        assert(vals@.subrange(0, off as int) =~= vals@);
    }
    b
}

/// Appends the field names of `n`'s leaves, in leaf order, to `out`.
fn push_leaf_fields(n: &ClauseNode, out: &mut Vec<String>)
    ensures
        final(out)@.len() == old(out)@.len() + spec_leaves(*n).len(),
        final(out)@.map_values(|s: String| s@) == old(out)@.map_values(|s: String| s@)
            + spec_leaf_fields(*n),
    decreases spec_height(*n), 0int,
{
    match n {
        ClauseNode::Leaf(c) => {
            let f = crate::text::str_chars(c.field.as_str());
            out.push(crate::text::chars_string(&f));
            proof {
                assert(out@.map_values(|s: String| s@) =~= old(out)@.map_values(|s: String| s@)
                    + spec_leaf_fields(*n));
            }
        },
        ClauseNode::Not(b) => {
            push_leaf_fields(b, out);
        },
        ClauseNode::And(cs) => {
            push_children_fields(cs, out);
        },
        ClauseNode::Or(cs) => {
            push_children_fields(cs, out);
        },
    }
}

/// Appends the leaf field names of each subtree of `cs`, in order.
fn push_children_fields(cs: &Vec<ClauseNode>, out: &mut Vec<String>)
    ensures
        final(out)@.len() == old(out)@.len() + spec_leaves_seq(cs@).len(),
        final(out)@.map_values(|s: String| s@) == old(out)@.map_values(|s: String| s@)
            + spec_leaves_seq(cs@).map_values(|c: Clause| c.field@),
    decreases spec_height_seq(cs@), 1int,
{
    let mut i: usize = 0;
    proof {
        assert(cs@.take(0) =~= Seq::<ClauseNode>::empty());
        assert(out@.map_values(|s: String| s@) =~= out@.map_values(|s: String| s@)
            + spec_leaves_seq(cs@.take(0)).map_values(|c: Clause| c.field@));
    }
    while i < cs.len()
        invariant
            i <= cs@.len(),
            out@.len() == old(out)@.len() + spec_leaves_seq(cs@.take(i as int)).len(),
            out@.map_values(|s: String| s@) == old(out)@.map_values(|s: String| s@)
                + spec_leaves_seq(cs@.take(i as int)).map_values(|c: Clause| c.field@),
        decreases cs@.len() - i,
    {
        proof {
            lemma_height_seq_index(cs@, i as int);
        }
        push_leaf_fields(&cs[i], out);
        proof {
            lemma_leaves_seq_snoc(cs@.take(i as int), cs@[i as int]);
            assert(cs@.take(i + 1 as int) =~= cs@.take(i as int).push(cs@[i as int]));
            assert(out@.map_values(|s: String| s@) =~= old(out)@.map_values(|s: String| s@)
                + spec_leaves_seq(cs@.take(i + 1 as int)).map_values(|c: Clause| c.field@));
        }
        i = i + 1;
    }
    proof {
        assert(cs@.take(cs@.len() as int) =~= cs@);
    }
}

/// The field names of a tree's leaves, in leaf order.
pub fn leaf_fields(n: &ClauseNode) -> (r: Vec<String>)
    ensures
        r@.len() == spec_leaves(*n).len(),
        r@.map_values(|s: String| s@) == spec_leaf_fields(*n),
{
    let mut out: Vec<String> = Vec::new();
    push_leaf_fields(n, &mut out);
    proof {
        assert(out@.map_values(|s: String| s@) =~= spec_leaf_fields(*n));
    }
    out
}

} // verus!
