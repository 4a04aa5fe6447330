//! Terms of the SMT encoding, built by the library in an arena of its own:
//! each node refers to earlier nodes only, so a term is an index into the
//! arena. `eval` gives what a term denotes under an assignment of the
//! constants; the bit-vector operations are those of 36-bit vectors, the
//! width of every board in the encoding.

use vstd::prelude::*;
use crate::encoding::BOARD_BITS;

verus! {

/// A constant of the encoding: the bitboards of step `t`, the turn flag,
/// the move position and the pass flag of move `t`.
#[derive(PartialEq, Eq, Structural, Clone, Copy)]
pub enum Var {
    Black(usize),
    White(usize),
    Turn(usize),
    Pos(usize),
    Pass(usize),
}

/// What a term denotes: a bit vector, or a truth value.
#[derive(PartialEq, Eq, Structural, Clone, Copy)]
pub enum Value {
    Bits(u64),
    Truth(bool),
}

/// A node of the arena; the `usize` fields are the indices of its operands.
#[derive(Clone, Copy)]
pub enum Node {
    /// The bit-vector literal `value` with `width` digits.
    Lit { width: usize, value: u64 },
    /// A declared constant.
    Const(Var),
    BvAnd(usize, usize),
    BvOr(usize, usize),
    BvNot(usize),
    BvShl(usize, usize),
    BvLshr(usize, usize),
    /// The concatenation of a high part and a low part of `low_width` bits.
    Concat(usize, usize, u64),
    Eq(usize, usize),
    Distinct(usize, usize),
    Ite(usize, usize, usize),
    And(usize, usize),
    Or(usize, usize),
    Xor(usize, usize),
    Not(usize),
}

/// The bits of a value (none for a truth value).
pub open spec fn bits_of(v: Value) -> u64 {
    match v {
        Value::Bits(x) => x,
        Value::Truth(_) => 0,
    }
}

/// The truth of a value (false for a bit vector).
pub open spec fn truth_of(v: Value) -> bool {
    match v {
        Value::Truth(b) => b,
        Value::Bits(_) => false,
    }
}

/// What node `i` of `nodes` denotes when each constant `v` has the value
/// `m(v)`. A node whose operands do not come before it denotes zero.
pub open spec fn eval(nodes: Seq<Node>, i: int, m: spec_fn(Var) -> Value) -> Value
    decreases i,
{
    if i < 0 || i >= nodes.len() {
        Value::Bits(0)
    } else {
        match nodes[i] {
            Node::Lit { width, value } => Value::Bits(value),
            Node::Const(v) => m(v),
            Node::BvAnd(a, b) => if a < i && b < i {
                Value::Bits(bits_of(eval(nodes, a as int, m)) & bits_of(eval(nodes, b as int, m)))
            } else {
                Value::Bits(0)
            },
            Node::BvOr(a, b) => if a < i && b < i {
                Value::Bits(bits_of(eval(nodes, a as int, m)) | bits_of(eval(nodes, b as int, m)))
            } else {
                Value::Bits(0)
            },
            Node::BvNot(a) => if a < i {
                Value::Bits(BOARD_BITS & !bits_of(eval(nodes, a as int, m)))
            } else {
                Value::Bits(0)
            },
            Node::BvShl(a, b) => if a < i && b < i {
                let s = bits_of(eval(nodes, b as int, m));
                Value::Bits(
                    if s < 36 {
                        (bits_of(eval(nodes, a as int, m)) << s) & BOARD_BITS
                    } else {
                        0
                    },
                )
            } else {
                Value::Bits(0)
            },
            Node::BvLshr(a, b) => if a < i && b < i {
                let s = bits_of(eval(nodes, b as int, m));
                Value::Bits(
                    if s < 36 {
                        bits_of(eval(nodes, a as int, m)) >> s
                    } else {
                        0
                    },
                )
            } else {
                Value::Bits(0)
            },
            Node::Concat(a, b, w) => if a < i && b < i {
                Value::Bits((bits_of(eval(nodes, a as int, m)) << w) | bits_of(eval(nodes, b as int, m)))
            } else {
                Value::Bits(0)
            },
            Node::Eq(a, b) => if a < i && b < i {
                Value::Truth(eval(nodes, a as int, m) == eval(nodes, b as int, m))
            } else {
                Value::Bits(0)
            },
            Node::Distinct(a, b) => if a < i && b < i {
                Value::Truth(eval(nodes, a as int, m) != eval(nodes, b as int, m))
            } else {
                Value::Bits(0)
            },
            Node::Ite(c, t, e) => if c < i && t < i && e < i {
                if truth_of(eval(nodes, c as int, m)) {
                    eval(nodes, t as int, m)
                } else {
                    eval(nodes, e as int, m)
                }
            } else {
                Value::Bits(0)
            },
            Node::And(a, b) => if a < i && b < i {
                Value::Truth(truth_of(eval(nodes, a as int, m)) && truth_of(eval(nodes, b as int, m)))
            } else {
                Value::Bits(0)
            },
            Node::Or(a, b) => if a < i && b < i {
                Value::Truth(truth_of(eval(nodes, a as int, m)) || truth_of(eval(nodes, b as int, m)))
            } else {
                Value::Bits(0)
            },
            Node::Xor(a, b) => if a < i && b < i {
                Value::Truth(truth_of(eval(nodes, a as int, m)) != truth_of(eval(nodes, b as int, m)))
            } else {
                Value::Bits(0)
            },
            Node::Not(a) => if a < i {
                Value::Truth(!truth_of(eval(nodes, a as int, m)))
            } else {
                Value::Bits(0)
            },
        }
    }
}

/// Whether `longer` keeps every term of `shorter`, each denoting the same
/// under every assignment.
pub open spec fn extends(shorter: Seq<Node>, longer: Seq<Node>) -> bool {
    &&& shorter.len() <= longer.len()
    &&& forall|j: int| 0 <= j < shorter.len() ==> #[trigger] longer[j] == shorter[j]
    &&& forall|j: int, m: spec_fn(Var) -> Value| 0 <= j < shorter.len() ==> #[trigger] eval(longer, j, m) == eval(shorter, j, m)
}

/// Adding a node leaves what the earlier nodes denote unchanged.
pub proof fn lemma_eval_push(nodes: Seq<Node>, n: Node, j: int, m: spec_fn(Var) -> Value)
    requires
        0 <= j < nodes.len(),
    ensures
        eval(nodes.push(n), j, m) == eval(nodes, j, m),
    decreases j,
{
    let longer = nodes.push(n);
    assert(longer[j] == nodes[j]);
    match nodes[j] {
        Node::Lit { .. } => {},
        Node::Const(_) => {},
        Node::BvNot(a) => {
            if a < j {
                lemma_eval_push(nodes, n, a as int, m);
            }
        },
        Node::Not(a) => {
            if a < j {
                lemma_eval_push(nodes, n, a as int, m);
            }
        },
        Node::Ite(c, t, e) => {
            if c < j && t < j && e < j {
                lemma_eval_push(nodes, n, c as int, m);
                lemma_eval_push(nodes, n, t as int, m);
                lemma_eval_push(nodes, n, e as int, m);
            }
        },
        Node::BvAnd(a, b) | Node::BvOr(a, b) | Node::BvShl(a, b) | Node::BvLshr(a, b) | Node::Eq(a, b) | Node::Distinct(a, b)
        | Node::And(a, b) | Node::Or(a, b) | Node::Xor(a, b) | Node::Concat(a, b, _) => {
            if a < j && b < j {
                lemma_eval_push(nodes, n, a as int, m);
                lemma_eval_push(nodes, n, b as int, m);
            }
        },
    }
}

/// Whether the operands of `n` come before position `len`.
pub open spec fn operands_below(n: Node, len: int) -> bool {
    match n {
        Node::Lit { .. } => true,
        Node::Const(_) => true,
        Node::BvNot(a) => a < len,
        Node::Not(a) => a < len,
        Node::Ite(c, t, e) => c < len && t < len && e < len,
        Node::BvAnd(a, b) => a < len && b < len,
        Node::BvOr(a, b) => a < len && b < len,
        Node::BvShl(a, b) => a < len && b < len,
        Node::BvLshr(a, b) => a < len && b < len,
        Node::Concat(a, b, _) => a < len && b < len,
        Node::Eq(a, b) => a < len && b < len,
        Node::Distinct(a, b) => a < len && b < len,
        Node::And(a, b) => a < len && b < len,
        Node::Or(a, b) => a < len && b < len,
        Node::Xor(a, b) => a < len && b < len,
    }
}

/// Adds a node to the arena and returns its index.
pub fn push_node(nodes: &mut Vec<Node>, n: Node) -> (h: usize)
    requires
        operands_below(n, old(nodes)@.len() as int),
    ensures
        final(nodes)@ == old(nodes)@.push(n),
        h == old(nodes)@.len(),
        extends(old(nodes)@, final(nodes)@),
{
    let h = nodes.len();
    nodes.push(n);
    proof {
        assert forall|j: int, m: spec_fn(Var) -> Value| 0 <= j < old(nodes)@.len() implies #[trigger] eval(nodes@, j, m) == eval(
            old(nodes)@,
            j,
            m,
        ) by {
            lemma_eval_push(old(nodes)@, n, j, m);
        }
    }
    h
}

/// The term `(bvand a b)`.
pub fn bv_and(nodes: &mut Vec<Node>, a: usize, b: usize) -> (h: usize)
    requires
        a < old(nodes)@.len(),
        b < old(nodes)@.len(),
    ensures
        extends(old(nodes)@, final(nodes)@),
        final(nodes)@.len() == old(nodes)@.len() + 1,
        h == old(nodes)@.len(),
        forall|m: spec_fn(Var) -> Value| #[trigger] eval(final(nodes)@, h as int, m) == Value::Bits(bits_of(eval(old(nodes)@, a as int, m)) & bits_of(eval(old(nodes)@, b as int, m))),
{
    let h = push_node(nodes, Node::BvAnd(a, b));
    proof {
        assert forall|m: spec_fn(Var) -> Value| #[trigger] eval(nodes@, h as int, m) == Value::Bits(bits_of(eval(old(nodes)@, a as int, m)) & bits_of(eval(old(nodes)@, b as int, m))) by {
            assert(nodes@[h as int] == Node::BvAnd(a, b));
            assert(eval(nodes@, a as int, m) == eval(old(nodes)@, a as int, m));
            assert(eval(nodes@, b as int, m) == eval(old(nodes)@, b as int, m));
        }
    }
    h
}

/// The term `(bvor a b)`.
pub fn bv_or(nodes: &mut Vec<Node>, a: usize, b: usize) -> (h: usize)
    requires
        a < old(nodes)@.len(),
        b < old(nodes)@.len(),
    ensures
        extends(old(nodes)@, final(nodes)@),
        final(nodes)@.len() == old(nodes)@.len() + 1,
        h == old(nodes)@.len(),
        forall|m: spec_fn(Var) -> Value| #[trigger] eval(final(nodes)@, h as int, m) == Value::Bits(bits_of(eval(old(nodes)@, a as int, m)) | bits_of(eval(old(nodes)@, b as int, m))),
{
    let h = push_node(nodes, Node::BvOr(a, b));
    proof {
        assert forall|m: spec_fn(Var) -> Value| #[trigger] eval(nodes@, h as int, m) == Value::Bits(bits_of(eval(old(nodes)@, a as int, m)) | bits_of(eval(old(nodes)@, b as int, m))) by {
            assert(nodes@[h as int] == Node::BvOr(a, b));
            assert(eval(nodes@, a as int, m) == eval(old(nodes)@, a as int, m));
            assert(eval(nodes@, b as int, m) == eval(old(nodes)@, b as int, m));
        }
    }
    h
}

/// The term `(bvshl a b)`.
pub fn bv_shl(nodes: &mut Vec<Node>, a: usize, b: usize) -> (h: usize)
    requires
        a < old(nodes)@.len(),
        b < old(nodes)@.len(),
    ensures
        extends(old(nodes)@, final(nodes)@),
        final(nodes)@.len() == old(nodes)@.len() + 1,
        h == old(nodes)@.len(),
        forall|m: spec_fn(Var) -> Value| #[trigger] eval(final(nodes)@, h as int, m) == Value::Bits(if bits_of(eval(old(nodes)@, b as int, m)) < 36 { (bits_of(eval(old(nodes)@, a as int, m)) << bits_of(eval(old(nodes)@, b as int, m))) & BOARD_BITS } else { 0 }),
{
    let h = push_node(nodes, Node::BvShl(a, b));
    proof {
        assert forall|m: spec_fn(Var) -> Value| #[trigger] eval(nodes@, h as int, m) == Value::Bits(if bits_of(eval(old(nodes)@, b as int, m)) < 36 { (bits_of(eval(old(nodes)@, a as int, m)) << bits_of(eval(old(nodes)@, b as int, m))) & BOARD_BITS } else { 0 }) by {
            assert(nodes@[h as int] == Node::BvShl(a, b));
            assert(eval(nodes@, a as int, m) == eval(old(nodes)@, a as int, m));
            assert(eval(nodes@, b as int, m) == eval(old(nodes)@, b as int, m));
        }
    }
    h
}

/// The term `(bvlshr a b)`.
pub fn bv_lshr(nodes: &mut Vec<Node>, a: usize, b: usize) -> (h: usize)
    requires
        a < old(nodes)@.len(),
        b < old(nodes)@.len(),
    ensures
        extends(old(nodes)@, final(nodes)@),
        final(nodes)@.len() == old(nodes)@.len() + 1,
        h == old(nodes)@.len(),
        forall|m: spec_fn(Var) -> Value| #[trigger] eval(final(nodes)@, h as int, m) == Value::Bits(if bits_of(eval(old(nodes)@, b as int, m)) < 36 { bits_of(eval(old(nodes)@, a as int, m)) >> bits_of(eval(old(nodes)@, b as int, m)) } else { 0 }),
{
    let h = push_node(nodes, Node::BvLshr(a, b));
    proof {
        assert forall|m: spec_fn(Var) -> Value| #[trigger] eval(nodes@, h as int, m) == Value::Bits(if bits_of(eval(old(nodes)@, b as int, m)) < 36 { bits_of(eval(old(nodes)@, a as int, m)) >> bits_of(eval(old(nodes)@, b as int, m)) } else { 0 }) by {
            assert(nodes@[h as int] == Node::BvLshr(a, b));
            assert(eval(nodes@, a as int, m) == eval(old(nodes)@, a as int, m));
            assert(eval(nodes@, b as int, m) == eval(old(nodes)@, b as int, m));
        }
    }
    h
}

/// The term `(= a b)`.
pub fn eq(nodes: &mut Vec<Node>, a: usize, b: usize) -> (h: usize)
    requires
        a < old(nodes)@.len(),
        b < old(nodes)@.len(),
    ensures
        extends(old(nodes)@, final(nodes)@),
        final(nodes)@.len() == old(nodes)@.len() + 1,
        h == old(nodes)@.len(),
        forall|m: spec_fn(Var) -> Value| #[trigger] eval(final(nodes)@, h as int, m) == Value::Truth(eval(old(nodes)@, a as int, m) == eval(old(nodes)@, b as int, m)),
{
    let h = push_node(nodes, Node::Eq(a, b));
    proof {
        assert forall|m: spec_fn(Var) -> Value| #[trigger] eval(nodes@, h as int, m) == Value::Truth(eval(old(nodes)@, a as int, m) == eval(old(nodes)@, b as int, m)) by {
            assert(nodes@[h as int] == Node::Eq(a, b));
            assert(eval(nodes@, a as int, m) == eval(old(nodes)@, a as int, m));
            assert(eval(nodes@, b as int, m) == eval(old(nodes)@, b as int, m));
        }
    }
    h
}

/// The term `(distinct a b)`.
pub fn distinct(nodes: &mut Vec<Node>, a: usize, b: usize) -> (h: usize)
    requires
        a < old(nodes)@.len(),
        b < old(nodes)@.len(),
    ensures
        extends(old(nodes)@, final(nodes)@),
        final(nodes)@.len() == old(nodes)@.len() + 1,
        h == old(nodes)@.len(),
        forall|m: spec_fn(Var) -> Value| #[trigger] eval(final(nodes)@, h as int, m) == Value::Truth(eval(old(nodes)@, a as int, m) != eval(old(nodes)@, b as int, m)),
{
    let h = push_node(nodes, Node::Distinct(a, b));
    proof {
        assert forall|m: spec_fn(Var) -> Value| #[trigger] eval(nodes@, h as int, m) == Value::Truth(eval(old(nodes)@, a as int, m) != eval(old(nodes)@, b as int, m)) by {
            assert(nodes@[h as int] == Node::Distinct(a, b));
            assert(eval(nodes@, a as int, m) == eval(old(nodes)@, a as int, m));
            assert(eval(nodes@, b as int, m) == eval(old(nodes)@, b as int, m));
        }
    }
    h
}

/// The term `(and a b)`.
pub fn and(nodes: &mut Vec<Node>, a: usize, b: usize) -> (h: usize)
    requires
        a < old(nodes)@.len(),
        b < old(nodes)@.len(),
    ensures
        extends(old(nodes)@, final(nodes)@),
        final(nodes)@.len() == old(nodes)@.len() + 1,
        h == old(nodes)@.len(),
        forall|m: spec_fn(Var) -> Value| #[trigger] eval(final(nodes)@, h as int, m) == Value::Truth(truth_of(eval(old(nodes)@, a as int, m)) && truth_of(eval(old(nodes)@, b as int, m))),
{
    let h = push_node(nodes, Node::And(a, b));
    proof {
        assert forall|m: spec_fn(Var) -> Value| #[trigger] eval(nodes@, h as int, m) == Value::Truth(truth_of(eval(old(nodes)@, a as int, m)) && truth_of(eval(old(nodes)@, b as int, m))) by {
            assert(nodes@[h as int] == Node::And(a, b));
            assert(eval(nodes@, a as int, m) == eval(old(nodes)@, a as int, m));
            assert(eval(nodes@, b as int, m) == eval(old(nodes)@, b as int, m));
        }
    }
    h
}

/// The term `(or a b)`.
pub fn or(nodes: &mut Vec<Node>, a: usize, b: usize) -> (h: usize)
    requires
        a < old(nodes)@.len(),
        b < old(nodes)@.len(),
    ensures
        extends(old(nodes)@, final(nodes)@),
        final(nodes)@.len() == old(nodes)@.len() + 1,
        h == old(nodes)@.len(),
        forall|m: spec_fn(Var) -> Value| #[trigger] eval(final(nodes)@, h as int, m) == Value::Truth(truth_of(eval(old(nodes)@, a as int, m)) || truth_of(eval(old(nodes)@, b as int, m))),
{
    let h = push_node(nodes, Node::Or(a, b));
    proof {
        assert forall|m: spec_fn(Var) -> Value| #[trigger] eval(nodes@, h as int, m) == Value::Truth(truth_of(eval(old(nodes)@, a as int, m)) || truth_of(eval(old(nodes)@, b as int, m))) by {
            assert(nodes@[h as int] == Node::Or(a, b));
            assert(eval(nodes@, a as int, m) == eval(old(nodes)@, a as int, m));
            assert(eval(nodes@, b as int, m) == eval(old(nodes)@, b as int, m));
        }
    }
    h
}

/// The term `(xor a b)`.
pub fn xor(nodes: &mut Vec<Node>, a: usize, b: usize) -> (h: usize)
    requires
        a < old(nodes)@.len(),
        b < old(nodes)@.len(),
    ensures
        extends(old(nodes)@, final(nodes)@),
        final(nodes)@.len() == old(nodes)@.len() + 1,
        h == old(nodes)@.len(),
        forall|m: spec_fn(Var) -> Value| #[trigger] eval(final(nodes)@, h as int, m) == Value::Truth(truth_of(eval(old(nodes)@, a as int, m)) != truth_of(eval(old(nodes)@, b as int, m))),
{
    let h = push_node(nodes, Node::Xor(a, b));
    proof {
        assert forall|m: spec_fn(Var) -> Value| #[trigger] eval(nodes@, h as int, m) == Value::Truth(truth_of(eval(old(nodes)@, a as int, m)) != truth_of(eval(old(nodes)@, b as int, m))) by {
            assert(nodes@[h as int] == Node::Xor(a, b));
            assert(eval(nodes@, a as int, m) == eval(old(nodes)@, a as int, m));
            assert(eval(nodes@, b as int, m) == eval(old(nodes)@, b as int, m));
        }
    }
    h
}

/// The term `(bvnot a)`.
pub fn bv_not(nodes: &mut Vec<Node>, a: usize) -> (h: usize)
    requires
        a < old(nodes)@.len(),
    ensures
        extends(old(nodes)@, final(nodes)@),
        final(nodes)@.len() == old(nodes)@.len() + 1,
        h == old(nodes)@.len(),
        forall|m: spec_fn(Var) -> Value| #[trigger] eval(final(nodes)@, h as int, m) == Value::Bits(BOARD_BITS & !bits_of(eval(old(nodes)@, a as int, m))),
{
    let h = push_node(nodes, Node::BvNot(a));
    proof {
        assert forall|m: spec_fn(Var) -> Value| #[trigger] eval(nodes@, h as int, m) == Value::Bits(BOARD_BITS & !bits_of(eval(old(nodes)@, a as int, m))) by {
            assert(nodes@[h as int] == Node::BvNot(a));
            assert(eval(nodes@, a as int, m) == eval(old(nodes)@, a as int, m));
        }
    }
    h
}

/// The term `(not a)`.
pub fn not(nodes: &mut Vec<Node>, a: usize) -> (h: usize)
    requires
        a < old(nodes)@.len(),
    ensures
        extends(old(nodes)@, final(nodes)@),
        final(nodes)@.len() == old(nodes)@.len() + 1,
        h == old(nodes)@.len(),
        forall|m: spec_fn(Var) -> Value| #[trigger] eval(final(nodes)@, h as int, m) == Value::Truth(!truth_of(eval(old(nodes)@, a as int, m))),
{
    let h = push_node(nodes, Node::Not(a));
    proof {
        assert forall|m: spec_fn(Var) -> Value| #[trigger] eval(nodes@, h as int, m) == Value::Truth(!truth_of(eval(old(nodes)@, a as int, m))) by {
            assert(nodes@[h as int] == Node::Not(a));
            assert(eval(nodes@, a as int, m) == eval(old(nodes)@, a as int, m));
        }
    }
    h
}

/// The term `(ite c t e)`.
pub fn ite(nodes: &mut Vec<Node>, c: usize, t: usize, e: usize) -> (h: usize)
    requires
        c < old(nodes)@.len(),
        t < old(nodes)@.len(),
        e < old(nodes)@.len(),
    ensures
        extends(old(nodes)@, final(nodes)@),
        final(nodes)@.len() == old(nodes)@.len() + 1,
        h == old(nodes)@.len(),
        forall|m: spec_fn(Var) -> Value| #[trigger] eval(final(nodes)@, h as int, m) == if truth_of(eval(old(nodes)@, c as int, m)) { eval(old(nodes)@, t as int, m) } else { eval(old(nodes)@, e as int, m) },
{
    let h = push_node(nodes, Node::Ite(c, t, e));
    proof {
        assert forall|m: spec_fn(Var) -> Value| #[trigger] eval(nodes@, h as int, m) == if truth_of(eval(old(nodes)@, c as int, m)) { eval(old(nodes)@, t as int, m) } else { eval(old(nodes)@, e as int, m) } by {
            assert(nodes@[h as int] == Node::Ite(c, t, e));
            assert(eval(nodes@, c as int, m) == eval(old(nodes)@, c as int, m));
            assert(eval(nodes@, t as int, m) == eval(old(nodes)@, t as int, m));
            assert(eval(nodes@, e as int, m) == eval(old(nodes)@, e as int, m));
        }
    }
    h
}

/// The term `(concat a b)` of a high part `a` and a low part `b` of
/// `low_width` bits.
pub fn concat(nodes: &mut Vec<Node>, a: usize, b: usize, low_width: u64) -> (h: usize)
    requires
        a < old(nodes)@.len(),
        b < old(nodes)@.len(),
    ensures
        extends(old(nodes)@, final(nodes)@),
        final(nodes)@.len() == old(nodes)@.len() + 1,
        h == old(nodes)@.len(),
        forall|m: spec_fn(Var) -> Value| #[trigger] eval(final(nodes)@, h as int, m) == Value::Bits((bits_of(eval(old(nodes)@, a as int, m)) << low_width) | bits_of(eval(old(nodes)@, b as int, m))),
{
    let h = push_node(nodes, Node::Concat(a, b, low_width));
    proof {
        assert forall|m: spec_fn(Var) -> Value| #[trigger] eval(nodes@, h as int, m) == Value::Bits((bits_of(eval(old(nodes)@, a as int, m)) << low_width) | bits_of(eval(old(nodes)@, b as int, m))) by {
            assert(nodes@[h as int] == Node::Concat(a, b, low_width));
            assert(eval(nodes@, a as int, m) == eval(old(nodes)@, a as int, m));
            assert(eval(nodes@, b as int, m) == eval(old(nodes)@, b as int, m));
        }
    }
    h
}

/// The bit-vector literal `value` with `width` binary digits.
pub fn lit(nodes: &mut Vec<Node>, width: usize, value: u64) -> (h: usize)
    ensures
        final(nodes)@ == old(nodes)@.push(Node::Lit { width, value }),
        extends(old(nodes)@, final(nodes)@),
        final(nodes)@.len() == old(nodes)@.len() + 1,
        h == old(nodes)@.len(),
        forall|m: spec_fn(Var) -> Value| #[trigger] eval(final(nodes)@, h as int, m) == Value::Bits(value),
{
    let h = push_node(nodes, Node::Lit { width, value });
    proof {
        assert forall|m: spec_fn(Var) -> Value| #[trigger] eval(nodes@, h as int, m) == Value::Bits(value) by {
            assert(nodes@[h as int] == Node::Lit { width, value });
        }
    }
    h
}

/// The declared constant `v`.
pub fn constant(nodes: &mut Vec<Node>, v: Var) -> (h: usize)
    ensures
        final(nodes)@ == old(nodes)@.push(Node::Const(v)),
        extends(old(nodes)@, final(nodes)@),
        final(nodes)@.len() == old(nodes)@.len() + 1,
        h == old(nodes)@.len(),
        forall|m: spec_fn(Var) -> Value| #[trigger] eval(final(nodes)@, h as int, m) == m(v),
{
    let h = push_node(nodes, Node::Const(v));
    proof {
        assert forall|m: spec_fn(Var) -> Value| #[trigger] eval(nodes@, h as int, m) == m(v) by {
            assert(nodes@[h as int] == Node::Const(v));
        }
    }
    h
}

/// Whether every term of `constraints` is true under `m`.
pub open spec fn all_hold(nodes: Seq<Node>, constraints: Seq<usize>, m: spec_fn(Var) -> Value) -> bool {
    forall|i: int| 0 <= i < constraints.len() ==> truth_of(#[trigger] eval(nodes, constraints[i] as int, m))
}

/// Whether every term of `constraints` is a node of `nodes`.
pub open spec fn all_below(constraints: Seq<usize>, len: int) -> bool {
    forall|i: int| 0 <= i < constraints.len() ==> #[trigger] constraints[i] < len
}

/// One more constraint holds along with the others.
pub proof fn lemma_all_hold_push(nodes: Seq<Node>, constraints: Seq<usize>, c: usize, m: spec_fn(Var) -> Value)
    ensures
        all_hold(nodes, constraints.push(c), m) == (all_hold(nodes, constraints, m) && truth_of(eval(nodes, c as int, m))),
{
    let pushed = constraints.push(c);
    if all_hold(nodes, pushed, m) {
        assert(pushed[constraints.len() as int] == c);
        assert forall|i: int| 0 <= i < constraints.len() implies truth_of(#[trigger] eval(nodes, constraints[i] as int, m)) by {
            assert(pushed[i] == constraints[i]);
        }
    }
    if all_hold(nodes, constraints, m) && truth_of(eval(nodes, c as int, m)) {
        assert forall|i: int| 0 <= i < pushed.len() implies truth_of(#[trigger] eval(nodes, pushed[i] as int, m)) by {
            if i < constraints.len() {
                assert(pushed[i] == constraints[i]);
            }
        }
    }
}

/// Constraints keep their meaning in an arena that extends theirs.
pub proof fn lemma_all_hold_extend(shorter: Seq<Node>, longer: Seq<Node>, constraints: Seq<usize>, m: spec_fn(Var) -> Value)
    requires
        extends(shorter, longer),
        all_below(constraints, shorter.len() as int),
    ensures
        all_hold(longer, constraints, m) == all_hold(shorter, constraints, m),
{
    if all_hold(shorter, constraints, m) {
        assert forall|i: int| 0 <= i < constraints.len() implies truth_of(#[trigger] eval(longer, constraints[i] as int, m)) by {
            assert(constraints[i] < shorter.len());
            assert(eval(longer, constraints[i] as int, m) == eval(shorter, constraints[i] as int, m));
        }
    }
    if all_hold(longer, constraints, m) {
        assert forall|i: int| 0 <= i < constraints.len() implies truth_of(#[trigger] eval(shorter, constraints[i] as int, m)) by {
            assert(constraints[i] < shorter.len());
            assert(eval(longer, constraints[i] as int, m) == eval(shorter, constraints[i] as int, m));
        }
    }
}

} // verus!
