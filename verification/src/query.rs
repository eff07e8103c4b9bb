//! The query: an immutable clause tree plus ordering and pagination, built
//! incrementally, and the evaluator that applies it to a record sequence
//! through the `Seekable` accessor capability.
//!
//! Filtering asks the accessor for one value per clause leaf and hands them
//! to the exact tree evaluator; ordering asks for one value per `OrderBy`
//! entry and sorts by the crate's total value order, stably, then slices.

use vstd::prelude::*;

use crate::clause::Clause;
use crate::clause::ClauseNode;
use crate::clause::eval_tree;
use crate::clause::leaf_fields;
use crate::clause::spec_leaves;
use crate::clause::spec_node_wf;
use crate::value::ClauseValue;
use crate::value::Op;
use crate::value::Value;
use crate::value::num_cmp;
use crate::value::spec_num_cmp;

verus! {

/// Sort direction of an `OrderBy` entry.
#[derive(Debug, Clone, Copy, PartialEq, Eq, Structural)]
pub enum Dir {
    Asc,
    Desc,
}

/// One ordering criterion: a field and a direction.
#[derive(Debug)]
pub struct OrderBy {
    /// The field whose values order the results.
    pub field: String,
    /// Ascending or descending.
    pub dir: Dir,
}

/// Capability implemented per record instance: yields the runtime value of a
/// named field, `Value::Null` where the record has none.
pub trait Seekable {
    /// The value of the named field for this record.
    fn field_value(&self, field: &str) -> Value;
}

/// Whether a node is the leaf `(field, op, value)`.
pub open spec fn spec_is_leaf(n: ClauseNode, field: Seq<char>, op: Op, value: ClauseValue) -> bool {
    match n {
        ClauseNode::Leaf(c) => c.field@ == field && c.op == op && c.value == value,
        _ => false,
    }
}

/// Whether a node is `Not` of the leaf `(field, op, value)`.
pub open spec fn spec_is_not_leaf(
    n: ClauseNode,
    field: Seq<char>,
    op: Op,
    value: ClauseValue,
) -> bool {
    match n {
        ClauseNode::Not(b) => spec_is_leaf(*b, field, op, value),
        _ => false,
    }
}

/// The children of an `And` node.
pub open spec fn spec_and_children(n: ClauseNode) -> Seq<ClauseNode>
    recommends
        n is And,
{
    match n {
        ClauseNode::And(cs) => cs@,
        _ => Seq::empty(),
    }
}

/// The children of an `Or` node.
pub open spec fn spec_or_children(n: ClauseNode) -> Seq<ClauseNode>
    recommends
        n is Or,
{
    match n {
        ClauseNode::Or(cs) => cs@,
        _ => Seq::empty(),
    }
}

/// Whether `root` is the empty conjunction, the state of a fresh query,
/// which matches every record.
pub open spec fn spec_empty_root(n: ClauseNode) -> bool {
    n is And && spec_and_children(n).len() == 0
}

/// How a new node is folded into the tree under `And` semantics: appended to
/// a top-level conjunction, else conjoined with the whole previous tree.
pub open spec fn spec_and_appended(old_root: ClauseNode, new_root: ClauseNode, n: ClauseNode) -> bool {
    if old_root is And {
        new_root is And && spec_and_children(new_root) == spec_and_children(old_root).push(n)
    } else {
        new_root is And && spec_and_children(new_root) == seq![old_root, n]
    }
}

/// How a new node is folded into the tree under `Or` semantics: appended to a
/// top-level disjunction; a fresh query's empty conjunction is replaced by a
/// disjunction of the node alone; anything else is disjoined whole.
pub open spec fn spec_or_appended(old_root: ClauseNode, new_root: ClauseNode, n: ClauseNode) -> bool {
    if old_root is Or {
        new_root is Or && spec_or_children(new_root) == spec_or_children(old_root).push(n)
    } else if spec_empty_root(old_root) {
        new_root is Or && spec_or_children(new_root) == seq![n]
    } else {
        new_root is Or && spec_or_children(new_root) == seq![old_root, n]
    }
}

/// A fresh query's empty conjunction holds of every record, whatever values
/// its accessor yields.
pub proof fn lemma_empty_root_matches(n: ClauseNode, vals: Seq<Value>)
    requires
        spec_empty_root(n),
    ensures
        crate::clause::spec_eval(n, vals),
{
    assert(crate::clause::spec_eval(n, vals) == crate::clause::spec_eval_all(
        spec_and_children(n),
        vals,
    ));
    assert(crate::clause::spec_eval_all(spec_and_children(n), vals));
}

/// The (field, direction) view of an ordering list.
pub open spec fn spec_order_view(order: Seq<OrderBy>) -> Seq<(Seq<char>, Dir)> {
    order.map_values(|o: OrderBy| (o.field@, o.dir))
}

/// A typed query: a boolean clause tree, an ordering list, and optional
/// pagination. Assembled by the builder methods, frozen by `build`, and
/// evaluated any number of times.
#[derive(Debug)]
pub struct Query {
    root: ClauseNode,
    order: Vec<OrderBy>,
    limit: Option<usize>,
    offset: Option<usize>,
}

impl Query {
    /// Well-formedness: every compiled regex in the tree matches its pattern.
    pub closed spec fn wf(self) -> bool {
        spec_node_wf(self.root)
    }

    /// The clause tree.
    pub closed spec fn spec_root(self) -> ClauseNode {
        self.root
    }

    /// The ordering list, as (field, direction) pairs.
    pub closed spec fn spec_order(self) -> Seq<(Seq<char>, Dir)> {
        spec_order_view(self.order@)
    }

    /// The result limit, if set.
    pub closed spec fn spec_limit(self) -> Option<usize> {
        self.limit
    }

    /// The result offset, if set.
    pub closed spec fn spec_offset(self) -> Option<usize> {
        self.offset
    }

    /// Creates an empty query: it matches every record, carries no ordering
    /// and no pagination.
    pub fn new() -> (r: Query)
        ensures
            r.wf(),
            spec_empty_root(r.spec_root()),
            r.spec_order() == Seq::<(Seq<char>, Dir)>::empty(),
            r.spec_limit() is None,
            r.spec_offset() is None,
    {
        let r = Query {
            root: ClauseNode::And(Vec::new()),
            order: Vec::new(),
            limit: None,
            offset: None,
        };
        proof {
            assert(r.spec_order() =~= Seq::<(Seq<char>, Dir)>::empty());
            assert(spec_and_children(r.spec_root()) =~= Seq::<ClauseNode>::empty());
            assert(crate::clause::spec_nodes_wf(spec_and_children(r.spec_root())));
        }
        r
    }

    /// Appends the clause `(field, op, value)` under `And` semantics.
    pub fn and(self, field: &str, op: Op, value: ClauseValue) -> (r: Query)
        requires
            self.wf(),
            value.wf(),
        ensures
            r.wf(),
            exists|n: ClauseNode|
                spec_is_leaf(n, field@, op, value) && spec_and_appended(
                    self.spec_root(),
                    r.spec_root(),
                    n,
                ),
            r.spec_order() == self.spec_order(),
            r.spec_limit() == self.spec_limit(),
            r.spec_offset() == self.spec_offset(),
    {
        let leaf = ClauseNode::Leaf(
            Clause { field: field_string(field), op, value },
        );
        self.push_and(leaf)
    }

    /// Appends the clause `(field, op, value)` under `Or` semantics.
    pub fn or(self, field: &str, op: Op, value: ClauseValue) -> (r: Query)
        requires
            self.wf(),
            value.wf(),
        ensures
            r.wf(),
            exists|n: ClauseNode|
                spec_is_leaf(n, field@, op, value) && spec_or_appended(
                    self.spec_root(),
                    r.spec_root(),
                    n,
                ),
            r.spec_order() == self.spec_order(),
            r.spec_limit() == self.spec_limit(),
            r.spec_offset() == self.spec_offset(),
    {
        let leaf = ClauseNode::Leaf(
            Clause { field: field_string(field), op, value },
        );
        self.push_or(leaf)
    }

    /// Appends the negation of the clause `(field, op, value)` under `And`
    /// semantics.
    pub fn not(self, field: &str, op: Op, value: ClauseValue) -> (r: Query)
        requires
            self.wf(),
            value.wf(),
        ensures
            r.wf(),
            exists|n: ClauseNode|
                spec_is_not_leaf(n, field@, op, value) && spec_and_appended(
                    self.spec_root(),
                    r.spec_root(),
                    n,
                ),
            r.spec_order() == self.spec_order(),
            r.spec_limit() == self.spec_limit(),
            r.spec_offset() == self.spec_offset(),
    {
        let leaf = ClauseNode::Leaf(
            Clause { field: field_string(field), op, value },
        );
        proof {
            assert(spec_node_wf(leaf));
        }
        let node = ClauseNode::Not(Box::new(leaf));
        proof {
            assert(spec_node_wf(node));
        }
        self.push_and(node)
    }

    /// Folds a well-formed node into the tree under `And` semantics.
    fn push_and(self, n: ClauseNode) -> (r: Query)
        requires
            self.wf(),
            spec_node_wf(n),
        ensures
            r.wf(),
            spec_and_appended(self.spec_root(), r.spec_root(), n),
            r.spec_order() == self.spec_order(),
            r.spec_limit() == self.spec_limit(),
            r.spec_offset() == self.spec_offset(),
    {
        let Query { root, order, limit, offset } = self;
        let new_root = match root {
            ClauseNode::And(mut cs) => {
                proof {
                    crate::clause::lemma_nodes_wf_snoc(cs@, n);
                }
                cs.push(n);
                ClauseNode::And(cs)
            },
            other => {
                let mut cs: Vec<ClauseNode> = Vec::new();
                cs.push(other);
                cs.push(n);
                proof {
                    assert(cs@ =~= seq![self.spec_root(), n]);
                    crate::clause::lemma_nodes_wf_snoc(seq![self.spec_root()], n);
                    crate::clause::lemma_nodes_wf_snoc(Seq::empty(), self.spec_root());
                    assert(seq![self.spec_root()] =~= Seq::<ClauseNode>::empty().push(
                        self.spec_root(),
                    ));
                    assert(cs@ =~= seq![self.spec_root()].push(n));
                }
                ClauseNode::And(cs)
            },
        };
        Query { root: new_root, order, limit, offset }
    }

    /// Folds a well-formed node into the tree under `Or` semantics.
    fn push_or(self, n: ClauseNode) -> (r: Query)
        requires
            self.wf(),
            spec_node_wf(n),
        ensures
            r.wf(),
            spec_or_appended(self.spec_root(), r.spec_root(), n),
            r.spec_order() == self.spec_order(),
            r.spec_limit() == self.spec_limit(),
            r.spec_offset() == self.spec_offset(),
    {
        let Query { root, order, limit, offset } = self;
        let new_root = match root {
            ClauseNode::Or(mut cs) => {
                proof {
                    crate::clause::lemma_nodes_wf_snoc(cs@, n);
                }
                cs.push(n);
                ClauseNode::Or(cs)
            },
            ClauseNode::And(cs) => {
                if cs.len() == 0 {
                    let mut single: Vec<ClauseNode> = Vec::new();
                    single.push(n);
                    proof {
                        assert(single@ =~= seq![n]);
                        crate::clause::lemma_nodes_wf_snoc(Seq::empty(), n);
                        assert(single@ =~= Seq::<ClauseNode>::empty().push(n));
                    }
                    ClauseNode::Or(single)
                } else {
                    let prev = ClauseNode::And(cs);
                    let mut both: Vec<ClauseNode> = Vec::new();
                    both.push(prev);
                    both.push(n);
                    proof {
                        assert(both@ =~= seq![self.spec_root(), n]);
                        crate::clause::lemma_nodes_wf_snoc(seq![self.spec_root()], n);
                        crate::clause::lemma_nodes_wf_snoc(Seq::empty(), self.spec_root());
                        assert(seq![self.spec_root()] =~= Seq::<ClauseNode>::empty().push(
                            self.spec_root(),
                        ));
                        assert(both@ =~= seq![self.spec_root()].push(n));
                    }
                    ClauseNode::Or(both)
                }
            },
            other => {
                let mut both: Vec<ClauseNode> = Vec::new();
                both.push(other);
                both.push(n);
                proof {
                    assert(both@ =~= seq![self.spec_root(), n]);
                    crate::clause::lemma_nodes_wf_snoc(seq![self.spec_root()], n);
                    crate::clause::lemma_nodes_wf_snoc(Seq::empty(), self.spec_root());
                    assert(seq![self.spec_root()] =~= Seq::<ClauseNode>::empty().push(
                        self.spec_root(),
                    ));
                    assert(both@ =~= seq![self.spec_root()].push(n));
                }
                ClauseNode::Or(both)
            },
        };
        Query { root: new_root, order, limit, offset }
    }

    /// Appends an ordering criterion; earlier entries are more significant.
    pub fn order_by(self, field: &str, dir: Dir) -> (r: Query)
        requires
            self.wf(),
        ensures
            r.wf(),
            r.spec_root() == self.spec_root(),
            r.spec_order() == self.spec_order().push((field@, dir)),
            r.spec_limit() == self.spec_limit(),
            r.spec_offset() == self.spec_offset(),
    {
        let Query { root, mut order, limit, offset } = self;
        order.push(OrderBy { field: field_string(field), dir });
        proof {
            assert(spec_order_view(order@) =~= spec_order_view(self.order@).push((field@, dir)));
        }
        Query { root, order, limit, offset }
    }

    /// Sets the result limit; the last write wins.
    pub fn limit(self, n: usize) -> (r: Query)
        requires
            self.wf(),
        ensures
            r.wf(),
            r.spec_root() == self.spec_root(),
            r.spec_order() == self.spec_order(),
            r.spec_limit() == Some(n),
            r.spec_offset() == self.spec_offset(),
    {
        let Query { root, order, limit: _, offset } = self;
        Query { root, order, limit: Some(n), offset }
    }

    /// Sets the result offset; the last write wins.
    pub fn offset(self, n: usize) -> (r: Query)
        requires
            self.wf(),
        ensures
            r.wf(),
            r.spec_root() == self.spec_root(),
            r.spec_order() == self.spec_order(),
            r.spec_limit() == self.spec_limit(),
            r.spec_offset() == Some(n),
    {
        let Query { root, order, limit, offset: _ } = self;
        Query { root, order, limit, offset: Some(n) }
    }

    /// Freezes the query. The builder methods each consume and return the
    /// query, so building is already value-preserving; `build` marks the
    /// hand-off to evaluation.
    pub fn build(self) -> (r: Query)
        requires
            self.wf(),
        ensures
            r.wf(),
            r.spec_root() == self.spec_root(),
            r.spec_order() == self.spec_order(),
            r.spec_limit() == self.spec_limit(),
            r.spec_offset() == self.spec_offset(),
    {
        self
    }
}

/// Copies a borrowed field name into an owned `String`.
fn field_string(field: &str) -> (r: String)
    ensures
        r@ == field@,
{
    let chars = crate::text::str_chars(field);
    crate::text::chars_string(&chars)
}

/// Lexicographic comparison of two character sequences by code point.
pub open spec fn spec_str_cmp(a: Seq<char>, b: Seq<char>) -> int
    decreases a.len(),
{
    if a.len() == 0 && b.len() == 0 {
        0
    } else if a.len() == 0 {
        -1
    } else if b.len() == 0 {
        1
    } else if a[0] < b[0] {
        -1
    } else if b[0] < a[0] {
        1
    } else {
        spec_str_cmp(a.drop_first(), b.drop_first())
    }
}

/// Lexicographic comparison of two character vectors.
fn str_cmp_chars(a: &Vec<char>, b: &Vec<char>) -> (r: i8)
    ensures
        r as int == spec_str_cmp(a@, b@),
        -1 <= r <= 1,
{
    let mut i: usize = 0;
    proof {
        assert(a@.skip(0) =~= a@);
        assert(b@.skip(0) =~= b@);
    }
    loop
        invariant
            i <= a@.len(),
            i <= b@.len(),
            spec_str_cmp(a@, b@) == spec_str_cmp(a@.skip(i as int), b@.skip(i as int)),
        decreases a@.len() - i,
    {
        let ghost sa = a@.skip(i as int);
        let ghost sb = b@.skip(i as int);
        if i == a.len() && i == b.len() {
            return 0;
        }
        if i == a.len() {
            return -1;
        }
        if i == b.len() {
            return 1;
        }
        if a[i] < b[i] {
            return -1;
        }
        if b[i] < a[i] {
            return 1;
        }
        proof {
            assert(sa[0] == a@[i as int] && sb[0] == b@[i as int]);
            assert(sa.drop_first() =~= a@.skip(i + 1 as int));
            assert(sb.drop_first() =~= b@.skip(i + 1 as int));
        }
        i = i + 1;
    }
}

/// Rank of a value's shape in the crate's total value order: missing values
/// first, then booleans, numbers, timestamps, strings, enums.
pub open spec fn spec_value_rank(v: Value) -> int {
    match v {
        Value::Null => 0,
        Value::Bool(_) => 1,
        Value::Number(_) => 2,
        Value::Timestamp(_) => 3,
        Value::String(_) => 4,
        Value::Enum(_) => 5,
    }
}

/// The crate's total order on runtime values, used for sorting: values of
/// different shapes order by rank; within a shape, booleans put `false`
/// first, numbers compare exactly by value, timestamps and enums compare
/// numerically, and strings compare lexicographically by code point.
pub open spec fn spec_value_cmp(a: Value, b: Value) -> int {
    if spec_value_rank(a) < spec_value_rank(b) {
        -1
    } else if spec_value_rank(b) < spec_value_rank(a) {
        1
    } else {
        match (a, b) {
            (Value::Bool(x), Value::Bool(y)) => if x == y {
                0
            } else if !x {
                -1
            } else {
                1
            },
            (Value::Number(x), Value::Number(y)) => spec_num_cmp(x, y),
            (Value::Timestamp(x), Value::Timestamp(y)) => if x.0 < y.0 {
                -1
            } else if y.0 < x.0 {
                1
            } else {
                0
            },
            (Value::String(x), Value::String(y)) => spec_str_cmp(x@, y@),
            (Value::Enum(x), Value::Enum(y)) => if x < y {
                -1
            } else if y < x {
                1
            } else {
                0
            },
            _ => 0,
        }
    }
}

/// Three-way comparison of two runtime values in the crate's total order.
pub fn value_cmp(a: &Value, b: &Value) -> (r: i8)
    ensures
        r as int == spec_value_cmp(*a, *b),
        -1 <= r <= 1,
{
    let ra = value_rank(a);
    let rb = value_rank(b);
    if ra < rb {
        return -1;
    }
    if rb < ra {
        return 1;
    }
    match (a, b) {
        (Value::Bool(x), Value::Bool(y)) => if *x == *y {
            0
        } else if !*x {
            -1
        } else {
            1
        },
        (Value::Number(x), Value::Number(y)) => num_cmp(x, y),
        (Value::Timestamp(x), Value::Timestamp(y)) => if x.0 < y.0 {
            -1
        } else if y.0 < x.0 {
            1
        } else {
            0
        },
        (Value::String(x), Value::String(y)) => {
            let cx = crate::text::str_chars(x.as_str());
            let cy = crate::text::str_chars(y.as_str());
            str_cmp_chars(&cx, &cy)
        },
        (Value::Enum(x), Value::Enum(y)) => if *x < *y {
            -1
        } else if *y < *x {
            1
        } else {
            0
        },
        _ => 0,
    }
}

/// Rank of a value's shape.
fn value_rank(v: &Value) -> (r: u8)
    ensures
        r as int == spec_value_rank(*v),
{
    match v {
        Value::Null => 0,
        Value::Bool(_) => 1,
        Value::Number(_) => 2,
        Value::Timestamp(_) => 3,
        Value::String(_) => 4,
        Value::Enum(_) => 5,
    }
}

/// Comparison of two key lists under per-position directions: the first
/// position where the values differ decides, inverted where its direction is
/// descending; lists compare equal past the directions or past either list's
/// end.
pub open spec fn spec_keys_cmp(a: Seq<Value>, b: Seq<Value>, dirs: Seq<Dir>) -> int
    decreases dirs.len(),
{
    if dirs.len() == 0 || a.len() == 0 || b.len() == 0 {
        0
    } else {
        let c0 = spec_value_cmp(a[0], b[0]);
        let c = if dirs[0] is Desc {
            -c0
        } else {
            c0
        };
        if c != 0 {
            c
        } else {
            spec_keys_cmp(a.drop_first(), b.drop_first(), dirs.drop_first())
        }
    }
}

/// Three-way comparison of two key lists under the given directions.
pub fn keys_cmp(a: &Vec<Value>, b: &Vec<Value>, dirs: &Vec<Dir>) -> (r: i8)
    ensures
        r as int == spec_keys_cmp(a@, b@, dirs@),
{
    let mut i: usize = 0;
    proof {
        assert(a@.skip(0) =~= a@);
        assert(b@.skip(0) =~= b@);
        assert(dirs@.skip(0) =~= dirs@);
    }
    loop
        invariant
            i <= a@.len(),
            i <= b@.len(),
            i <= dirs@.len(),
            spec_keys_cmp(a@, b@, dirs@) == spec_keys_cmp(
                a@.skip(i as int),
                b@.skip(i as int),
                dirs@.skip(i as int),
            ),
        decreases dirs@.len() - i,
    {
        let ghost sa = a@.skip(i as int);
        let ghost sb = b@.skip(i as int);
        let ghost sd = dirs@.skip(i as int);
        if i == dirs.len() || i == a.len() || i == b.len() {
            return 0;
        }
        let c0 = value_cmp(&a[i], &b[i]);
        let c: i8 = match dirs[i] {
            Dir::Desc => -c0,
            Dir::Asc => c0,
        };
        proof {
            assert(sa[0] == a@[i as int] && sb[0] == b@[i as int] && sd[0] == dirs@[i as int]);
            assert(sa.drop_first() =~= a@.skip(i + 1 as int));
            assert(sb.drop_first() =~= b@.skip(i + 1 as int));
            assert(sd.drop_first() =~= dirs@.skip(i + 1 as int));
        }
        if c != 0 {
            return c;
        }
        i = i + 1;
    }
}

/// Whether the sort pair `a` may stand before `b`: its keys compare at or
/// before `b`'s, with the original position as the tie-breaker, which makes
/// the sort stable.
pub open spec fn spec_pair_le(
    a: (Vec<Value>, usize),
    b: (Vec<Value>, usize),
    dirs: Seq<Dir>,
) -> bool {
    let c = spec_keys_cmp(a.0@, b.0@, dirs);
    c < 0 || (c == 0 && a.1 <= b.1)
}

/// Whether sort pair `a` may stand before `b` under the given directions.
fn pair_le(a: &(Vec<Value>, usize), b: &(Vec<Value>, usize), dirs: &Vec<Dir>) -> (r: bool)
    ensures
        r == spec_pair_le(*a, *b, dirs@),
{
    let c = keys_cmp(&a.0, &b.0, dirs);
    c < 0 || (c == 0 && a.1 <= b.1)
}

/// Insertion of a pair into a sorted run: it goes after every pair that may
/// stand before it.
pub open spec fn spec_insert_pair(
    x: (Vec<Value>, usize),
    s: Seq<(Vec<Value>, usize)>,
    dirs: Seq<Dir>,
) -> Seq<(Vec<Value>, usize)>
    decreases s.len(),
{
    if s.len() > 0 && spec_pair_le(s[0], x, dirs) {
        seq![s[0]] + spec_insert_pair(x, s.drop_first(), dirs)
    } else {
        seq![x] + s
    }
}

/// Stable insertion sort of key/index pairs: each pair of the input, in
/// order, inserted after every earlier-sorted pair that may stand before it.
pub open spec fn spec_sort_pairs(s: Seq<(Vec<Value>, usize)>, dirs: Seq<Dir>) -> Seq<
    (Vec<Value>, usize),
>
    decreases s.len(),
{
    if s.len() == 0 {
        Seq::empty()
    } else {
        spec_insert_pair(s.last(), spec_sort_pairs(s.drop_last(), dirs), dirs)
    }
}

/// Inserting leaves exactly the old pairs plus the new one.
proof fn lemma_insert_pair_multiset(
    x: (Vec<Value>, usize),
    s: Seq<(Vec<Value>, usize)>,
    dirs: Seq<Dir>,
)
    ensures
        spec_insert_pair(x, s, dirs).to_multiset() == s.to_multiset().insert(x),
    decreases s.len(),
{
    broadcast use vstd::seq_lib::group_seq_properties;

    if s.len() > 0 && spec_pair_le(s[0], x, dirs) {
        lemma_insert_pair_multiset(x, s.drop_first(), dirs);
        assert(seq![s[0]] + spec_insert_pair(x, s.drop_first(), dirs) =~= spec_insert_pair(
            x,
            s.drop_first(),
            dirs,
        ).insert(0, s[0]));
        assert(s =~= s.drop_first().insert(0, s[0]));
    } else {
        assert(seq![x] + s =~= s.insert(0, x));
    }
}

/// Sorting leaves exactly the input pairs.
pub proof fn lemma_sort_pairs_multiset(s: Seq<(Vec<Value>, usize)>, dirs: Seq<Dir>)
    ensures
        spec_sort_pairs(s, dirs).to_multiset() == s.to_multiset(),
    decreases s.len(),
{
    broadcast use vstd::seq_lib::group_seq_properties;

    if s.len() > 0 {
        lemma_sort_pairs_multiset(s.drop_last(), dirs);
        lemma_insert_pair_multiset(s.last(), spec_sort_pairs(s.drop_last(), dirs), dirs);
        assert(s =~= s.drop_last().push(s.last()));
    }
}

/// If every pair before `p` may stand before `x` and the pair at `p` (if any)
/// may not, inserting `x` puts it exactly at `p`.
proof fn lemma_insert_pair_at(
    x: (Vec<Value>, usize),
    s: Seq<(Vec<Value>, usize)>,
    dirs: Seq<Dir>,
    p: int,
)
    requires
        0 <= p <= s.len(),
        forall|j: int| 0 <= j < p ==> spec_pair_le(#[trigger] s[j], x, dirs),
        p < s.len() ==> !spec_pair_le(s[p], x, dirs),
    ensures
        spec_insert_pair(x, s, dirs) == s.take(p) + seq![x] + s.skip(p),
    decreases p,
{
    if p == 0 {
        if s.len() > 0 {
            assert(spec_insert_pair(x, s, dirs) =~= s.take(0) + seq![x] + s.skip(0));
        } else {
            assert(spec_insert_pair(x, s, dirs) =~= s.take(0) + seq![x] + s.skip(0));
        }
    } else {
        lemma_insert_pair_at(x, s.drop_first(), dirs, p - 1);
        assert(s.drop_first().take(p - 1) =~= s.take(p).drop_first());
        assert(s.drop_first().skip(p - 1) =~= s.skip(p));
        assert(spec_insert_pair(x, s, dirs) =~= s.take(p) + seq![x] + s.skip(p));
    }
}

/// Stably sorts key/index pairs by the keys under the given directions, ties
/// broken by the index. The result is exactly the specification's insertion
/// sort, and holds exactly the input pairs.
pub fn sort_pairs(pairs: Vec<(Vec<Value>, usize)>, dirs: &Vec<Dir>) -> (r: Vec<
    (Vec<Value>, usize),
>)
    ensures
        r@ == spec_sort_pairs(pairs@, dirs@),
        r@.to_multiset() == pairs@.to_multiset(),
{
    let ghost orig = pairs@;
    let mut rest = pairs;
    let mut out: Vec<(Vec<Value>, usize)> = Vec::new();
    proof {
        assert(orig.take(0) =~= Seq::<(Vec<Value>, usize)>::empty());
    }
    while rest.len() > 0
        invariant
            rest@.len() <= orig.len(),
            rest@ == orig.skip(orig.len() - rest@.len()),
            out@ == spec_sort_pairs(orig.take(orig.len() - rest@.len()), dirs@),
        decreases rest@.len(),
    {
        let ghost done = orig.len() - rest@.len();
        let x = rest.remove(0);
        proof {
            assert(x == orig[done]);
            assert(rest@ =~= orig.skip(done + 1));
        }
        // Find the insertion point: after every pair that may stand before x.
        let mut p: usize = 0;
        while p < out.len() && pair_le(&out[p], &x, dirs)
            invariant
                p <= out@.len(),
                forall|j: int| 0 <= j < p ==> spec_pair_le(#[trigger] out@[j], x, dirs@),
            decreases out@.len() - p,
        {
            p = p + 1;
        }
        proof {
            lemma_insert_pair_at(x, out@, dirs@, p as int);
        }
        out.insert(p, x);
        proof {
            assert(out@ =~= old_out_take_insert(orig, done, dirs@, p as int));
            assert(orig.take(done + 1).drop_last() =~= orig.take(done));
            assert(orig.take(done + 1).last() == orig[done]);
        }
    }
    proof {
        assert(orig.take(orig.len() as int) =~= orig);
        lemma_sort_pairs_multiset(orig, dirs@);
    }
    out
}

/// The sorted run after inserting the pair at `done` into the sort of the
/// first `done` pairs at position `p` (helper for the sorting loop's proof).
pub open spec fn old_out_take_insert(
    orig: Seq<(Vec<Value>, usize)>,
    done: int,
    dirs: Seq<Dir>,
    p: int,
) -> Seq<(Vec<Value>, usize)> {
    spec_sort_pairs(orig.take(done), dirs).take(p) + seq![orig[done]] + spec_sort_pairs(
        orig.take(done),
        dirs,
    ).skip(p)
}

/// The page of a sequence: everything from `offset` on (the whole tail when
/// the offset passes the end), at most `limit` entries.
pub open spec fn spec_page(s: Seq<usize>, offset: Option<usize>, limit: Option<usize>) -> Seq<
    usize,
> {
    let off: int = match offset {
        Some(o) => if o <= s.len() {
            o as int
        } else {
            s.len() as int
        },
        None => 0,
    };
    let rest = s.skip(off);
    match limit {
        Some(l) => if l <= rest.len() {
            rest.take(l as int)
        } else {
            rest
        },
        None => rest,
    }
}

/// Applies offset and limit to a list of indices: skips the first `offset`
/// entries, then keeps at most `limit`.
pub fn page_indices(v: &Vec<usize>, offset: Option<usize>, limit: Option<usize>) -> (r: Vec<usize>)
    ensures
        r@ == spec_page(v@, offset, limit),
{
    let start: usize = match offset {
        Some(o) => if o <= v.len() {
            o
        } else {
            v.len()
        },
        None => 0,
    };
    let avail = v.len() - start;
    let take_n: usize = match limit {
        Some(l) => if l <= avail {
            l
        } else {
            avail
        },
        None => avail,
    };
    let mut r: Vec<usize> = Vec::new();
    let mut i: usize = 0;
    while i < take_n
        invariant
            start + take_n <= v@.len(),
            v@.len() <= usize::MAX,
            i <= take_n,
            r@ == v@.subrange(start as int, start + i as int),
        decreases take_n - i,
    {
        r.push(v[start + i]);
        proof {
            assert(r@ =~= v@.subrange(start as int, start + i + 1 as int));
        }
        i = i + 1;
    }
    proof {
        let spec_r = spec_page(v@, offset, limit);
        assert(spec_r =~= v@.subrange(start as int, start + take_n as int));
    }
    r
}

/// A strictly increasing list of indices below `n` has at most `n` entries
/// (helper for `count`'s bound).
proof fn lemma_strictly_increasing_bound(s: Seq<usize>, n: int)
    requires
        forall|i: int, j: int| 0 <= i < j < s.len() ==> s[i] < s[j],
        forall|i: int| 0 <= i < s.len() ==> s[i] < n,
        n >= 0,
    ensures
        s.len() <= n,
    decreases s.len(),
{
    if s.len() > 0 {
        lemma_index_at_least(s, s.len() - 1);
    }
}

/// In a strictly increasing list, the entry at `k` is at least `k`.
proof fn lemma_index_at_least(s: Seq<usize>, k: int)
    requires
        forall|i: int, j: int| 0 <= i < j < s.len() ==> s[i] < s[j],
        0 <= k < s.len(),
    ensures
        s[k] >= k,
    decreases k,
{
    if k > 0 {
        lemma_index_at_least(s, k - 1);
    }
}

/// The positions (ascending) whose answer lists satisfy the tree: position
/// `i` is kept exactly when the tree holds of `ans[i]`.
pub open spec fn spec_matching_indices(n: ClauseNode, ans: Seq<Seq<Value>>) -> Seq<int>
    decreases ans.len(),
{
    if ans.len() == 0 {
        Seq::empty()
    } else if crate::clause::spec_eval(n, ans.last()) {
        spec_matching_indices(n, ans.drop_last()).push(ans.len() - 1)
    } else {
        spec_matching_indices(n, ans.drop_last())
    }
}

/// One well-shaped accessor answer list per record: one value per leaf.
pub open spec fn spec_answers_wf(n: ClauseNode, ans: Seq<Seq<Value>>) -> bool {
    forall|i: int| 0 <= i < ans.len() ==> (#[trigger] ans[i]).len() == spec_leaves(n).len()
}

/// The directions of an ordering list.
pub open spec fn spec_order_dirs(order: Seq<(Seq<char>, Dir)>) -> Seq<Dir> {
    order.map_values(|p: (Seq<char>, Dir)| p.1)
}

impl Query {
    /// Whether the query's clause tree holds of one record: the accessor is
    /// asked for one value per leaf, and the tree is evaluated over exactly
    /// those values. What is returned for each list of accessor answers is
    /// pinned down by `eval_tree`; this function only gathers the answers.
    pub fn matches_record<T: Seekable>(&self, record: &T) -> (r: bool)
        requires
            self.wf(),
        ensures
            exists|vals: Seq<Value>|
                vals.len() == spec_leaves(self.spec_root()).len() && r == crate::clause::spec_eval(
                    self.spec_root(),
                    vals,
                ),
    {
        let fields = leaf_fields(&self.root);
        let mut vals: Vec<Value> = Vec::new();
        let mut i: usize = 0;
        while i < fields.len()
            invariant
                i <= fields@.len(),
                vals@.len() == i,
            decreases fields@.len() - i,
        {
            vals.push(record.field_value(fields[i].as_str()));
            i = i + 1;
        }
        let b = eval_tree(&self.root, &vals);
        proof {
            assert(vals@.len() == spec_leaves(self.spec_root()).len());
            assert(b == crate::clause::spec_eval(self.spec_root(), vals@));
        }
        b
    }

    /// The positions, in order, of the records the clause tree holds of: for
    /// some list of answer lists — one value per leaf per record, the values
    /// the accessor yielded — the result is exactly the positions whose
    /// answers satisfy the tree.
    pub fn filter_indices<T: Seekable>(&self, records: &Vec<T>) -> (r: Vec<usize>)
        requires
            self.wf(),
        ensures
            forall|i: int| 0 <= i < r@.len() ==> r@[i] < records@.len(),
            forall|i: int, j: int| 0 <= i < j < r@.len() ==> r@[i] < r@[j],
            exists|ans: Seq<Seq<Value>>|
                ans.len() == records@.len() && spec_answers_wf(self.spec_root(), ans)
                    && r@.map_values(|x: usize| x as int) == spec_matching_indices(
                    self.spec_root(),
                    ans,
                ),
    {
        let ghost root = self.spec_root();
        let ghost leaf_n = spec_leaves(root).len();
        let mut r: Vec<usize> = Vec::new();
        let ghost mut ans: Seq<Seq<Value>> = Seq::empty();
        let mut i: usize = 0;
        proof {
            assert(r@.map_values(|x: usize| x as int) =~= spec_matching_indices(root, ans));
        }
        while i < records.len()
            invariant
                self.wf(),
                root == self.spec_root(),
                leaf_n == spec_leaves(root).len(),
                i <= records@.len(),
                ans.len() == i,
                forall|k: int| 0 <= k < ans.len() ==> (#[trigger] ans[k]).len() == leaf_n,
                r@.map_values(|x: usize| x as int) == spec_matching_indices(root, ans),
                forall|k: int| 0 <= k < r@.len() ==> r@[k] < i,
                forall|k: int, l: int| 0 <= k < l < r@.len() ==> r@[k] < r@[l],
            decreases records@.len() - i,
        {
            let ghost ans0 = ans;
            let ghost r0 = r@;
            let matched = self.matches_record(&records[i]);
            proof {
                let vals = choose|vals: Seq<Value>|
                    vals.len() == spec_leaves(root).len() && matched == crate::clause::spec_eval(
                        root,
                        vals,
                    );
                ans = ans0.push(vals);
                assert(ans.drop_last() =~= ans0);
                assert(ans.last() == vals);
            }
            if matched {
                r.push(i);
            }
            proof {
                if matched {
                    assert(spec_matching_indices(root, ans) == spec_matching_indices(
                        root,
                        ans0,
                    ).push(i as int));
                    assert(r@ =~= r0.push(i));
                    assert(r@.map_values(|x: usize| x as int) =~= r0.map_values(
                        |x: usize| x as int,
                    ).push(i as int));
                } else {
                    assert(spec_matching_indices(root, ans) == spec_matching_indices(root, ans0));
                }
            }
            i = i + 1;
        }
        r
    }

    /// How many records the clause tree holds of: for some list of per-record
    /// accessor answers, the number of positions whose answers satisfy the
    /// tree. Filtering only — ordering and pagination are skipped.
    pub fn count<T: Seekable>(&self, records: &Vec<T>) -> (r: usize)
        requires
            self.wf(),
        ensures
            r <= records@.len(),
            exists|ans: Seq<Seq<Value>>|
                ans.len() == records@.len() && spec_answers_wf(self.spec_root(), ans) && r
                    == spec_matching_indices(self.spec_root(), ans).len(),
    {
        let idxs = self.filter_indices(records);
        proof {
            lemma_strictly_increasing_bound(idxs@, records@.len() as int);
            let ans = choose|ans: Seq<Seq<Value>>|
                ans.len() == records@.len() && spec_answers_wf(self.spec_root(), ans)
                    && idxs@.map_values(|x: usize| x as int) == spec_matching_indices(
                    self.spec_root(),
                    ans,
                );
            assert(idxs@.len() == spec_matching_indices(self.spec_root(), ans).len());
        }
        idxs.len()
    }

    /// Evaluates the query over a record sequence: keeps the records the
    /// clause tree holds of, sorts them stably by the ordering list under the
    /// crate's total value order, applies offset and limit, and returns the
    /// surviving records' original positions. For some list of per-record
    /// filter answers and some list of per-kept-record sort keys — what the
    /// accessor yielded — the result is exactly the page of the stable sort
    /// of the matching positions.
    pub fn run<T: Seekable>(&self, records: &Vec<T>) -> (r: Vec<usize>)
        requires
            self.wf(),
        ensures
            forall|i: int| 0 <= i < r@.len() ==> r@[i] < records@.len(),
            self.spec_limit() matches Some(l) ==> r@.len() <= l,
            r@.len() <= records@.len(),
            exists|ans: Seq<Seq<Value>>, keyed: Seq<(Vec<Value>, usize)>|
                ans.len() == records@.len() && spec_answers_wf(self.spec_root(), ans) && (
                keyed.map_values(|p: (Vec<Value>, usize)| p.1 as int) == spec_matching_indices(
                    self.spec_root(),
                    ans,
                )) && (forall|k: int|
                    0 <= k < keyed.len() ==> (#[trigger] keyed[k]).0@.len()
                        == self.spec_order().len()) && r@ == spec_page(
                    spec_sort_pairs(keyed, spec_order_dirs(self.spec_order())).map_values(
                        |p: (Vec<Value>, usize)| p.1,
                    ),
                    self.spec_offset(),
                    self.spec_limit(),
                ),
    {
        broadcast use vstd::seq_lib::group_seq_properties;

        let idxs = self.filter_indices(records);
        proof {
            lemma_strictly_increasing_bound(idxs@, records@.len() as int);
        }
        let mut pairs: Vec<(Vec<Value>, usize)> = Vec::new();
        let mut i: usize = 0;
        while i < idxs.len()
            invariant
                i <= idxs@.len(),
                pairs@.len() == i,
                forall|k: int| 0 <= k < idxs@.len() ==> idxs@[k] < records@.len(),
                forall|k: int| 0 <= k < pairs@.len() ==> (#[trigger] pairs@[k]).1
                    < records@.len(),
                forall|k: int| 0 <= k < i ==> (#[trigger] pairs@[k]).1 == idxs@[k],
                forall|k: int|
                    0 <= k < i ==> (#[trigger] pairs@[k]).0@.len() == self.spec_order().len(),
            decreases idxs@.len() - i,
        {
            let idx = idxs[i];
            let mut keys: Vec<Value> = Vec::new();
            let mut j: usize = 0;
            while j < self.order.len()
                invariant
                    j <= self.order@.len(),
                    keys@.len() == j,
                    idx < records@.len(),
                decreases self.order@.len() - j,
            {
                keys.push(records[idx].field_value(self.order[j].field.as_str()));
                j = j + 1;
            }
            pairs.push((keys, idx));
            i = i + 1;
        }
        let mut dirs: Vec<Dir> = Vec::new();
        let mut j: usize = 0;
        while j < self.order.len()
            invariant
                j <= self.order@.len(),
                dirs@.len() == j,
                forall|m: int| 0 <= m < j ==> dirs@[m] == self.spec_order()[m].1,
            decreases self.order@.len() - j,
        {
            dirs.push(self.order[j].dir);
            j = j + 1;
        }
        proof {
            assert(dirs@ =~= spec_order_dirs(self.spec_order()));
        }
        let ghost pairs_before = pairs@;
        let sorted = sort_pairs(pairs, &dirs);
        proof {
            assert(sorted@.to_multiset().len() == pairs_before.to_multiset().len());
            pairs_before.to_multiset_ensures();
            sorted@.to_multiset_ensures();
            assert(sorted@.len() == pairs_before.len());
        }
        let mut only_idx: Vec<usize> = Vec::new();
        let mut k: usize = 0;
        proof {
            lemma_sorted_indices_in_range(pairs_before, sorted@, records@.len() as int);
        }
        while k < sorted.len()
            invariant
                k <= sorted@.len(),
                forall|m: int| 0 <= m < sorted@.len() ==> (#[trigger] sorted@[m]).1
                    < records@.len(),
                only_idx@.len() == k,
                forall|m: int| 0 <= m < k ==> only_idx@[m] == (#[trigger] sorted@[m]).1,
            decreases sorted@.len() - k,
        {
            only_idx.push(sorted[k].1);
            k = k + 1;
        }
        let paged = page_indices(&only_idx, self.offset, self.limit);
        proof {
            let sp = spec_page(only_idx@, self.spec_offset(), self.spec_limit());
            assert forall|i: int| 0 <= i < only_idx@.len() implies only_idx@[i]
                < records@.len() by {
                assert(only_idx@[i] == sorted@[i].1);
            }
            assert(forall|m: int| 0 <= m < sp.len() ==> sp[m] < records@.len()) by {
                assert forall|m: int| 0 <= m < sp.len() implies sp[m] < records@.len() by {
                    lemma_page_element(
                        only_idx@,
                        self.spec_offset(),
                        self.spec_limit(),
                        m,
                        records@.len() as int,
                    );
                }
            }
            // The witnesses: the filter answers and the keyed pairs as built.
            let ans = choose|ans: Seq<Seq<Value>>|
                ans.len() == records@.len() && spec_answers_wf(self.spec_root(), ans)
                    && idxs@.map_values(|x: usize| x as int) == spec_matching_indices(
                    self.spec_root(),
                    ans,
                );
            assert(pairs_before.map_values(|p: (Vec<Value>, usize)| p.1 as int) =~= idxs@
                .map_values(|x: usize| x as int));
            assert(only_idx@ =~= sorted@.map_values(|p: (Vec<Value>, usize)| p.1));
            assert(pairs_before.map_values(|p: (Vec<Value>, usize)| p.1 as int)
                == spec_matching_indices(self.spec_root(), ans));
            assert(paged@ == spec_page(
                spec_sort_pairs(pairs_before, spec_order_dirs(self.spec_order())).map_values(
                    |p: (Vec<Value>, usize)| p.1,
                ),
                self.spec_offset(),
                self.spec_limit(),
            ));
        }
        paged
    }
}

/// Every element of a page is an element of the paged list, so bounds on the
/// list's elements carry to the page.
proof fn lemma_page_element(s: Seq<usize>, offset: Option<usize>, limit: Option<usize>, m: int, n: int)
    requires
        0 <= m < spec_page(s, offset, limit).len(),
        forall|i: int| 0 <= i < s.len() ==> s[i] < n,
    ensures
        spec_page(s, offset, limit)[m] < n,
{
    let off: int = match offset {
        Some(o) => if o <= s.len() {
            o as int
        } else {
            s.len() as int
        },
        None => 0,
    };
    let sp = spec_page(s, offset, limit);
    assert(sp[m] == s[off + m]);
}

/// A multiset-preserving sort keeps every pair's index in range.
proof fn lemma_sorted_indices_in_range(
    before: Seq<(Vec<Value>, usize)>,
    after: Seq<(Vec<Value>, usize)>,
    n: int,
)
    requires
        after.to_multiset() == before.to_multiset(),
        forall|k: int| 0 <= k < before.len() ==> (#[trigger] before[k]).1 < n,
    ensures
        forall|k: int| 0 <= k < after.len() ==> (#[trigger] after[k]).1 < n,
{
    broadcast use vstd::seq_lib::group_seq_properties;

    assert forall|k: int| 0 <= k < after.len() implies (#[trigger] after[k]).1 < n by {
        assert(after.to_multiset().contains(after[k])) by {
            assert(after.to_multiset().count(after[k]) > 0);
        }
        assert(before.to_multiset().contains(after[k]));
        assert(before.contains(after[k]));
        let i = choose|i: int| 0 <= i < before.len() && before[i] == after[k];
    }
}

} // verus!