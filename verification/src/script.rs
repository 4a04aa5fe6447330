//! The SMT-LIB text of the encoding and the conversation with the solver.
//!
//! Each node of a term arena becomes one command: a constant is declared
//! (`declare-const`), every other node is defined (`define-fun`) under the
//! name `t` and its index, in terms of the names of its operands; a
//! constraint is asserted by name. The solver's answers are read as text:
//! `success` after each command, `sat`, `unsat` or `unknown` after the
//! check, and `((name value))` after a `get-value` query.

use vstd::prelude::*;
use crate::smt::{SmtResponse, SmtSession, receive_line, send_line};
use crate::term::{Node, Value, Var, bits_of, eval, operands_below, truth_of};
use crate::encoding::BOARD_BITS;
use crate::text::{copy_range, decimal_text, ends_with, indexed_name, starts_with, string_of};
use crate::yices2_kissat_reachability_solver::{
    leading_blanks, model_bool, model_number, parse_bitboard_value, parse_bitvector_value, parse_bool_value, trailing_blanks, trimmed,
};

verus! {

/// The SMT name of the constant `v`.
pub open spec fn var_text(v: Var) -> Seq<char> {
    match v {
        Var::Black(t) => "black_bitboard_"@ + decimal_text(t as nat),
        Var::White(t) => "white_bitboard_"@ + decimal_text(t as nat),
        Var::Turn(t) => "is_black_turn_"@ + decimal_text(t as nat),
        Var::Pos(t) => "move_pos_"@ + decimal_text(t as nat),
        Var::Pass(t) => "pass_"@ + decimal_text(t as nat),
    }
}

/// The width of the constant `v`: 36 bits for a board, 6 bits for a move
/// position, 0 (a truth value) for a flag.
pub open spec fn var_width(v: Var) -> int {
    match v {
        Var::Black(_) | Var::White(_) => 36,
        Var::Pos(_) => 6,
        Var::Turn(_) | Var::Pass(_) => 0,
    }
}

/// The width of node `i`: the number of bits of a bit-vector term, 0 for a
/// truth value (and for a node whose operands do not come before it).
pub open spec fn node_width(nodes: Seq<Node>, i: int) -> int
    decreases i,
{
    if i < 0 || i >= nodes.len() {
        0
    } else {
        match nodes[i] {
            Node::Lit { width, value } => width as int,
            Node::Const(v) => var_width(v),
            Node::BvAnd(a, _) | Node::BvOr(a, _) | Node::BvShl(a, _) | Node::BvLshr(a, _) | Node::BvNot(a) => if a < i {
                node_width(nodes, a as int)
            } else {
                0
            },
            Node::Concat(a, b, _) => if a < i && b < i {
                node_width(nodes, a as int) + node_width(nodes, b as int)
            } else {
                0
            },
            Node::Ite(_, t, _) => if t < i {
                node_width(nodes, t as int)
            } else {
                0
            },
            _ => 0,
        }
    }
}

/// The SMT sort of a term of width `w`.
pub open spec fn sort_text(w: int) -> Seq<char> {
    if w <= 0 {
        "Bool"@
    } else {
        "(_ BitVec "@ + decimal_text(w as nat) + ")"@
    }
}

/// The name by which the commands refer to node `j`: the constant's name
/// for a constant, `t` and the index otherwise.
pub open spec fn term_ref(nodes: Seq<Node>, j: int) -> Seq<char> {
    if 0 <= j < nodes.len() && nodes[j] is Const {
        var_text(nodes[j]->Const_0)
    } else {
        "t"@ + decimal_text(j as nat)
    }
}

/// `(op a)`.
pub open spec fn app1(op: Seq<char>, a: Seq<char>) -> Seq<char> {
    "("@ + op + " "@ + a + ")"@
}

/// `(op a b)`.
pub open spec fn app2(op: Seq<char>, a: Seq<char>, b: Seq<char>) -> Seq<char> {
    "("@ + op + " "@ + a + " "@ + b + ")"@
}

/// `(op a b c)`.
pub open spec fn app3(op: Seq<char>, a: Seq<char>, b: Seq<char>, c: Seq<char>) -> Seq<char> {
    "("@ + op + " "@ + a + " "@ + b + " "@ + c + ")"@
}

/// The SMT term of node `i`, over the names of its operands.
pub open spec fn node_body(nodes: Seq<Node>, i: int) -> Seq<char> {
    match nodes[i] {
        Node::Lit { width, value } => "(_ bv"@ + decimal_text(value as nat) + " "@ + decimal_text(width as nat) + ")"@,
        Node::Const(v) => var_text(v),
        Node::BvAnd(a, b) => app2("bvand"@, term_ref(nodes, a as int), term_ref(nodes, b as int)),
        Node::BvOr(a, b) => app2("bvor"@, term_ref(nodes, a as int), term_ref(nodes, b as int)),
        Node::BvNot(a) => app1("bvnot"@, term_ref(nodes, a as int)),
        Node::BvShl(a, b) => app2("bvshl"@, term_ref(nodes, a as int), term_ref(nodes, b as int)),
        Node::BvLshr(a, b) => app2("bvlshr"@, term_ref(nodes, a as int), term_ref(nodes, b as int)),
        Node::Concat(a, b, _) => app2("concat"@, term_ref(nodes, a as int), term_ref(nodes, b as int)),
        Node::Eq(a, b) => app2("="@, term_ref(nodes, a as int), term_ref(nodes, b as int)),
        Node::Distinct(a, b) => app2("distinct"@, term_ref(nodes, a as int), term_ref(nodes, b as int)),
        Node::Ite(c, t, e) => app3("ite"@, term_ref(nodes, c as int), term_ref(nodes, t as int), term_ref(nodes, e as int)),
        Node::And(a, b) => app2("and"@, term_ref(nodes, a as int), term_ref(nodes, b as int)),
        Node::Or(a, b) => app2("or"@, term_ref(nodes, a as int), term_ref(nodes, b as int)),
        Node::Xor(a, b) => app2("xor"@, term_ref(nodes, a as int), term_ref(nodes, b as int)),
        Node::Not(a) => app1("not"@, term_ref(nodes, a as int)),
    }
}

/// The command for node `i`: the declaration of a constant, or the
/// definition of `t` and the index as the node's term.
pub open spec fn node_command(nodes: Seq<Node>, i: int) -> Seq<char> {
    match nodes[i] {
        Node::Const(v) => "(declare-const "@ + var_text(v) + " "@ + sort_text(var_width(v)) + ")"@,
        _ => "(define-fun t"@ + decimal_text(i as nat) + " () "@ + sort_text(node_width(nodes, i)) + " "@ + node_body(nodes, i) + ")"@,
    }
}

/// The command asserting node `c`.
pub open spec fn assert_command(nodes: Seq<Node>, c: int) -> Seq<char> {
    "(assert "@ + term_ref(nodes, c) + ")"@
}

/// The commands that hand the arena and its constraints to the solver: the
/// logic, one command per node in order, one assertion per constraint in
/// order.
pub open spec fn script(nodes: Seq<Node>, constraints: Seq<usize>) -> Seq<Seq<char>> {
    seq!["(set-logic QF_BV)"@] + Seq::new(nodes.len(), |i: int| node_command(nodes, i)) + Seq::new(
        constraints.len(),
        |k: int| assert_command(nodes, constraints[k] as int),
    )
}

/// The characters of each string.
pub open spec fn texts(v: Seq<String>) -> Seq<Seq<char>> {
    Seq::new(v.len(), |i: int| v[i]@)
}

/// The conversation of sending `cmds` in order, each answered `success`.
pub open spec fn acknowledged(cmds: Seq<Seq<char>>) -> Seq<(bool, Seq<char>)>
    decreases cmds.len(),
{
    if cmds.len() == 0 {
        Seq::empty()
    } else {
        acknowledged(cmds.drop_last()) + seq![(true, cmds.last()), (false, "success"@)]
    }
}

/// The answer text of a satisfiability check.
pub open spec fn response_text(r: SmtResponse) -> Seq<char> {
    match r {
        SmtResponse::Sat => "sat"@,
        SmtResponse::Unsat => "unsat"@,
        SmtResponse::Unknown => "unknown"@,
    }
}

/// The query for the model's value of `v`.
pub open spec fn value_query(v: Var) -> Seq<char> {
    "(get-value ("@ + var_text(v) + "))"@
}

/// The value text in the answer `((name value))` to the query for `v`.
pub open spec fn value_text(v: Var, answer: Seq<char>) -> Option<Seq<char>> {
    let pre = "(("@ + var_text(v) + " "@;
    let post = "))"@;
    if pre.len() + post.len() <= answer.len() && answer.take(pre.len() as int) == pre && answer.skip(
        answer.len() - post.len(),
    ) == post {
        Some(answer.subrange(pre.len() as int, answer.len() - post.len()))
    } else {
        None
    }
}

/// The value of `v` that the text gives: a number for a bit vector (at most
/// 255 for a move position), 1 or 0 for `true` or `false`.
pub open spec fn parse_value(v: Var, text: Seq<char>) -> Option<u64> {
    match v {
        Var::Black(_) | Var::White(_) => match model_number(text, u64::MAX as int) {
            Some(x) => Some(x as u64),
            None => None,
        },
        Var::Pos(_) => match model_number(text, 255) {
            Some(x) => Some(x as u64),
            None => None,
        },
        Var::Turn(_) | Var::Pass(_) => match model_bool(text) {
            Some(b) => Some(if b { 1u64 } else { 0u64 }),
            None => None,
        },
    }
}

/// The value of `v` read from the query at position `p` of the
/// conversation and the answer that follows it.
pub open spec fn answered_value(log: Seq<(bool, Seq<char>)>, p: int, v: Var) -> Option<u64> {
    if 0 <= p && p + 1 < log.len() && log[p] == (true, value_query(v)) && !log[p + 1].0 {
        match value_text(v, log[p + 1].1) {
            Some(t) => parse_value(v, t),
            None => None,
        }
    } else {
        None
    }
}

/// Whether the conversation holds, from position `start` on, the queries
/// for `vars` in order, answered with `vals`.
pub open spec fn answered_values(log: Seq<(bool, Seq<char>)>, start: int, vars: Seq<Var>, vals: Seq<u64>) -> bool {
    &&& vals.len() == vars.len()
    &&& forall|i: int| 0 <= i < vars.len() ==> #[trigger] answered_value(log, start + 2 * i, vars[i]) == Some(vals[i])
}

/// Whether `longer` begins with `shorter`.
pub open spec fn log_extends(shorter: Seq<(bool, Seq<char>)>, longer: Seq<(bool, Seq<char>)>) -> bool {
    &&& shorter.len() <= longer.len()
    &&& forall|k: int| 0 <= k < shorter.len() ==> #[trigger] longer[k] == shorter[k]
}

/// Answers read earlier stay read as the conversation goes on.
pub proof fn lemma_answered_values_extend(
    log1: Seq<(bool, Seq<char>)>,
    log2: Seq<(bool, Seq<char>)>,
    start: int,
    vars: Seq<Var>,
    vals: Seq<u64>,
)
    requires
        log_extends(log1, log2),
        answered_values(log1, start, vars, vals),
    ensures
        answered_values(log2, start, vars, vals),
{
    assert forall|i: int| 0 <= i < vars.len() implies #[trigger] answered_value(log2, start + 2 * i, vars[i]) == Some(vals[i]) by {
        assert(answered_value(log1, start + 2 * i, vars[i]) == Some(vals[i]));
        assert(log2[start + 2 * i] == log1[start + 2 * i]);
        assert(log2[start + 2 * i + 1] == log1[start + 2 * i + 1]);
    }
}

/// The name of the SMT constant `v`.
pub fn var_name(v: Var) -> (name: String)
    ensures
        name@ == var_text(v),
{
    match v {
        Var::Black(t) => indexed_name("black_bitboard_", t as u64),
        Var::White(t) => indexed_name("white_bitboard_", t as u64),
        Var::Turn(t) => indexed_name("is_black_turn_", t as u64),
        Var::Pos(t) => indexed_name("move_pos_", t as u64),
        Var::Pass(t) => indexed_name("pass_", t as u64),
    }
}

/// The width of each node; `None` where one exceeds `u64::MAX`.
pub fn node_widths(nodes: &Vec<Node>) -> (widths: Option<Vec<u64>>)
    ensures
        widths matches Some(w) ==> w@.len() == nodes@.len() && forall|j: int|
            0 <= j < nodes@.len() ==> #[trigger] w@[j] == node_width(nodes@, j),
        widths is None ==> exists|j: int| 0 <= j < nodes@.len() && #[trigger] node_width(nodes@, j) > u64::MAX,
{
    let mut w: Vec<u64> = Vec::new();
    let mut i: usize = 0;
    while i < nodes.len()
        invariant
            i <= nodes@.len(),
            w@.len() == i,
            forall|j: int| 0 <= j < i ==> #[trigger] w@[j] == node_width(nodes@, j),
        decreases nodes@.len() - i,
    {
        let x: u64 = match nodes[i] {
            Node::Lit { width, value } => width as u64,
            Node::Const(v) => match v {
                Var::Black(_) | Var::White(_) => 36,
                Var::Pos(_) => 6,
                Var::Turn(_) | Var::Pass(_) => 0,
            },
            Node::BvAnd(a, _) | Node::BvOr(a, _) | Node::BvShl(a, _) | Node::BvLshr(a, _) | Node::BvNot(a) => if a < i {
                w[a]
            } else {
                0
            },
            Node::Concat(a, b, _) => if a < i && b < i {
                match w[a].checked_add(w[b]) {
                    Some(s) => s,
                    None => {
                        proof {
                            assert(node_width(nodes@, i as int) > u64::MAX);
                        }
                        return None;
                    },
                }
            } else {
                0
            },
            Node::Ite(_, t, _) => if t < i {
                w[t]
            } else {
                0
            },
            _ => 0,
        };
        proof {
            assert(x == node_width(nodes@, i as int));
        }
        w.push(x);
        i += 1;
    }
    Some(w)
}

/// The text of `sort_text(w)`.
fn sort_string(w: u64) -> (s: String)
    ensures
        s@ == sort_text(w as int),
{
    if w == 0 {
        string_of("Bool")
    } else {
        let mut s = indexed_name("(_ BitVec ", w);
        s.append(")");
        s
    }
}

/// The text of `term_ref(nodes, j)`.
fn term_ref_string(nodes: &Vec<Node>, j: usize) -> (s: String)
    ensures
        s@ == term_ref(nodes@, j as int),
{
    if j < nodes.len() {
        match nodes[j] {
            Node::Const(v) => {
                return var_name(v);
            },
            _ => {},
        }
    }
    indexed_name("t", j as u64)
}

/// The text of `app1(op, a)`.
fn app1_string(op: &str, a: &String) -> (s: String)
    ensures
        s@ == app1(op@, a@),
{
    let mut s = string_of("(");
    s.append(op);
    s.append(" ");
    s.append(a.as_str());
    s.append(")");
    proof {
        assert(s@ =~= app1(op@, a@));
    }
    s
}

/// The text of `app2(op, a, b)`.
fn app2_string(op: &str, a: &String, b: &String) -> (s: String)
    ensures
        s@ == app2(op@, a@, b@),
{
    let mut s = string_of("(");
    s.append(op);
    s.append(" ");
    s.append(a.as_str());
    s.append(" ");
    s.append(b.as_str());
    s.append(")");
    proof {
        assert(s@ =~= app2(op@, a@, b@));
    }
    s
}

/// The text of `app3(op, a, b, c)`.
fn app3_string(op: &str, a: &String, b: &String, c: &String) -> (s: String)
    ensures
        s@ == app3(op@, a@, b@, c@),
{
    let mut s = string_of("(");
    s.append(op);
    s.append(" ");
    s.append(a.as_str());
    s.append(" ");
    s.append(b.as_str());
    s.append(" ");
    s.append(c.as_str());
    s.append(")");
    proof {
        assert(s@ =~= app3(op@, a@, b@, c@));
    }
    s
}

/// The text of `node_body(nodes, i)`.
fn node_body_string(nodes: &Vec<Node>, i: usize) -> (s: String)
    requires
        i < nodes@.len(),
    ensures
        s@ == node_body(nodes@, i as int),
{
    match nodes[i] {
        Node::Lit { width, value } => {
            let mut s = indexed_name("(_ bv", value);
            let w = indexed_name(" ", width as u64);
            s.append(w.as_str());
            s.append(")");
            proof {
                assert(s@ =~= node_body(nodes@, i as int));
            }
            s
        },
        Node::Const(v) => var_name(v),
        Node::BvAnd(a, b) => app2_string("bvand", &term_ref_string(nodes, a), &term_ref_string(nodes, b)),
        Node::BvOr(a, b) => app2_string("bvor", &term_ref_string(nodes, a), &term_ref_string(nodes, b)),
        Node::BvNot(a) => app1_string("bvnot", &term_ref_string(nodes, a)),
        Node::BvShl(a, b) => app2_string("bvshl", &term_ref_string(nodes, a), &term_ref_string(nodes, b)),
        Node::BvLshr(a, b) => app2_string("bvlshr", &term_ref_string(nodes, a), &term_ref_string(nodes, b)),
        Node::Concat(a, b, _) => app2_string("concat", &term_ref_string(nodes, a), &term_ref_string(nodes, b)),
        Node::Eq(a, b) => app2_string("=", &term_ref_string(nodes, a), &term_ref_string(nodes, b)),
        Node::Distinct(a, b) => app2_string("distinct", &term_ref_string(nodes, a), &term_ref_string(nodes, b)),
        Node::Ite(c, t, e) => app3_string(
            "ite",
            &term_ref_string(nodes, c),
            &term_ref_string(nodes, t),
            &term_ref_string(nodes, e),
        ),
        Node::And(a, b) => app2_string("and", &term_ref_string(nodes, a), &term_ref_string(nodes, b)),
        Node::Or(a, b) => app2_string("or", &term_ref_string(nodes, a), &term_ref_string(nodes, b)),
        Node::Xor(a, b) => app2_string("xor", &term_ref_string(nodes, a), &term_ref_string(nodes, b)),
        Node::Not(a) => app1_string("not", &term_ref_string(nodes, a)),
    }
}

/// The text of `node_command(nodes, i)`, given the width of node `i`.
fn node_command_string(nodes: &Vec<Node>, i: usize, width: u64) -> (s: String)
    requires
        i < nodes@.len(),
        width == node_width(nodes@, i as int),
    ensures
        s@ == node_command(nodes@, i as int),
{
    match nodes[i] {
        Node::Const(v) => {
            let mut s = string_of("(declare-const ");
            let name = var_name(v);
            s.append(name.as_str());
            s.append(" ");
            let w: u64 = match v {
                Var::Black(_) | Var::White(_) => 36,
                Var::Pos(_) => 6,
                Var::Turn(_) | Var::Pass(_) => 0,
            };
            let sort = sort_string(w);
            s.append(sort.as_str());
            s.append(")");
            proof {
                assert(s@ =~= node_command(nodes@, i as int));
            }
            s
        },
        _ => {
            let mut s = indexed_name("(define-fun t", i as u64);
            s.append(" () ");
            let sort = sort_string(width);
            s.append(sort.as_str());
            s.append(" ");
            let body = node_body_string(nodes, i);
            s.append(body.as_str());
            s.append(")");
            proof {
                assert(s@ =~= node_command(nodes@, i as int));
            }
            s
        },
    }
}

/// The commands of `script(nodes, constraints)`; `None` where the width of
/// a node exceeds `u64::MAX`.
pub fn script_commands(nodes: &Vec<Node>, constraints: &Vec<usize>) -> (cmds: Option<Vec<String>>)
    ensures
        cmds matches Some(c) ==> texts(c@) == script(nodes@, constraints@),
        cmds is None ==> exists|j: int| 0 <= j < nodes@.len() && #[trigger] node_width(nodes@, j) > u64::MAX,
{
    let widths = match node_widths(nodes) {
        Some(w) => w,
        None => return None,
    };
    let ghost first = seq!["(set-logic QF_BV)"@];
    let ghost defs = Seq::new(nodes@.len(), |i: int| node_command(nodes@, i));
    let ghost asserts = Seq::new(constraints@.len(), |k: int| assert_command(nodes@, constraints@[k] as int));
    let mut cmds: Vec<String> = Vec::new();
    cmds.push(string_of("(set-logic QF_BV)"));
    let mut i: usize = 0;
    while i < nodes.len()
        invariant
            i <= nodes@.len(),
            widths@.len() == nodes@.len(),
            forall|j: int| 0 <= j < nodes@.len() ==> #[trigger] widths@[j] == node_width(nodes@, j),
            defs == Seq::new(nodes@.len(), |i: int| node_command(nodes@, i)),
            texts(cmds@) == first + defs.take(i as int),
        decreases nodes@.len() - i,
    {
        let c = node_command_string(nodes, i, widths[i]);
        let ghost before = cmds@;
        cmds.push(c);
        proof {
            assert(texts(cmds@) =~= texts(before).push(c@));
            assert(defs.take(i + 1) =~= defs.take(i as int).push(defs[i as int]));
        }
        i += 1;
    }
    proof {
        assert(defs.take(nodes@.len() as int) =~= defs);
    }
    let mut k: usize = 0;
    while k < constraints.len()
        invariant
            k <= constraints@.len(),
            asserts == Seq::new(constraints@.len(), |k: int| assert_command(nodes@, constraints@[k] as int)),
            texts(cmds@) == first + defs + asserts.take(k as int),
        decreases constraints@.len() - k,
    {
        let mut c = string_of("(assert ");
        let r = term_ref_string(nodes, constraints[k]);
        c.append(r.as_str());
        c.append(")");
        proof {
            assert(c@ =~= assert_command(nodes@, constraints@[k as int] as int));
        }
        let ghost before = cmds@;
        cmds.push(c);
        proof {
            assert(texts(cmds@) =~= texts(before).push(c@));
            assert(asserts.take(k + 1) =~= asserts.take(k as int).push(asserts[k as int]));
        }
        k += 1;
    }
    proof {
        assert(asserts.take(constraints@.len() as int) =~= asserts);
    }
    Some(cmds)
}

/// The conversation of sending `cmds` has two lines per command.
pub proof fn lemma_acknowledged_len(cmds: Seq<Seq<char>>)
    ensures
        acknowledged(cmds).len() == 2 * cmds.len(),
    decreases cmds.len(),
{
    if cmds.len() > 0 {
        lemma_acknowledged_len(cmds.drop_last());
    }
}

/// Command `j` of the conversation of `cmds` stands at position `2 * j`,
/// its `success` at `2 * j + 1`.
pub proof fn lemma_acknowledged_at(cmds: Seq<Seq<char>>, j: int)
    requires
        0 <= j < cmds.len(),
    ensures
        acknowledged(cmds)[2 * j] == (true, cmds[j]),
        acknowledged(cmds)[2 * j + 1] == (false, "success"@),
    decreases cmds.len(),
{
    lemma_acknowledged_len(cmds.drop_last());
    if j < cmds.len() - 1 {
        lemma_acknowledged_at(cmds.drop_last(), j);
    }
}

/// No command of a script is the check.
pub proof fn lemma_script_has_no_check(nodes: Seq<Node>, constraints: Seq<usize>, k: int)
    requires
        0 <= k < script(nodes, constraints).len(),
    ensures
        script(nodes, constraints)[k] != "(check-sat)"@,
{
    reveal_strlit("(check-sat)");
    reveal_strlit("(set-logic QF_BV)");
    reveal_strlit("(declare-const ");
    reveal_strlit("(define-fun t");
    reveal_strlit("(assert ");
    let c = script(nodes, constraints)[k];
    if k == 0 {
        assert(c[1] == 's');
    } else if k <= nodes.len() {
        let i = k - 1;
        assert(c == node_command(nodes, i));
        match nodes[i] {
            Node::Const(v) => {
                assert(c[1] == 'd');
            },
            _ => {
                assert(c[1] == 'd');
            },
        }
    } else {
        assert(c == assert_command(nodes, constraints[k - 1 - nodes.len()] as int));
        assert(c[1] == 'a');
    }
    assert("(check-sat)"@[1] == 'c');
}

/// Sends `cmds` in order, each followed by reading the solver's answer,
/// and stops at the first command that cannot be sent, whose answer cannot
/// be read, or whose answer is not `success`. `true` exactly where the
/// conversation grew by the commands, each answered `success`; otherwise it
/// grew by fewer lines than that.
pub fn run_commands(session: &mut SmtSession, cmds: &Vec<String>) -> (ok: bool)
    ensures
        log_extends(old(session).log(), final(session).log()),
        ok == (final(session).log() == old(session).log() + acknowledged(texts(cmds@))),
        !ok ==> final(session).log().len() <= old(session).log().len() + 2 * cmds@.len(),
        forall|k: int|
            0 <= k < cmds@.len() && old(session).log().len() + 2 * k < final(session).log().len() ==> #[trigger] final(session).log()[old(session).log().len() + 2 * k] == (true, cmds@[k]@),
{
    let success = string_of("success");
    let ghost start = session.log();
    let ghost t = texts(cmds@);
    proof {
        lemma_acknowledged_len(t);
    }
    let mut i: usize = 0;
    while i < cmds.len()
        invariant
            i <= cmds@.len(),
            success@ == "success"@,
            start == old(session).log(),
            t == texts(cmds@),
            acknowledged(t).len() == 2 * t.len(),
            session.log() == start + acknowledged(t.take(i as int)),
            forall|k: int| 0 <= k < i ==> #[trigger] session.log()[start.len() + 2 * k] == (true, cmds@[k]@),
        decreases cmds@.len() - i,
    {
        proof {
            lemma_acknowledged_len(t.take(i as int));
            lemma_acknowledged_len(t.take(i + 1));
            assert(t.take(i + 1).drop_last() =~= t.take(i as int));
            assert(t.take(i + 1).last() == cmds@[i as int]@);
            assert forall|k: int| 0 <= k < start.len() implies #[trigger] session.log()[k] == start[k] by {}
        }
        let ghost before = session.log();
        let ghost full = start + acknowledged(t);
        if !send_line(session, cmds[i].as_str()) {
            proof {
                assert(session.log().len() == start.len() + 2 * i + 1);
                assert(session.log() != full);
                assert forall|k: int| 0 <= k < start.len() implies #[trigger] session.log()[k] == start[k] by {
                    assert(session.log()[k] == before[k]);
                }
            }
            return false;
        }
        let answer = match receive_line(session) {
            Some(a) => a,
            None => {
                proof {
                    assert(session.log().len() == start.len() + 2 * i + 1);
                    assert(session.log() != full);
                    assert forall|k: int| 0 <= k < start.len() implies #[trigger] session.log()[k] == start[k] by {
                        assert(session.log()[k] == before[k]);
                    }
                }
                return false;
            },
        };
        if !(answer == success) {
            proof {
                let log = session.log();
                assert(log.len() == start.len() + 2 * i + 2);
                assert(log[log.len() - 1] == (false, answer@));
                if i + 1 == t.len() {
                    assert(t.take(i + 1) =~= t);
                    assert(full == start + acknowledged(t.take(i as int)) + seq![(true, t.last()), (false, "success"@)]);
                    assert(full[log.len() - 1] == (false, "success"@));
                }
                assert(log != full);
                assert forall|k: int| 0 <= k < start.len() implies #[trigger] log[k] == start[k] by {
                    assert(log[k] == before[k]);
                }
            }
            return false;
        }
        proof {
            assert(session.log() =~= start + acknowledged(t.take(i + 1)));
        }
        i += 1;
    }
    proof {
        assert(t.take(cmds@.len() as int) =~= t);
        assert forall|k: int| 0 <= k < start.len() implies #[trigger] session.log()[k] == start[k] by {}
    }
    true
}

/// The answer that the text of a check's reply gives: `sat`, `unsat` or
/// `unknown`; `None` for any other text.
pub open spec fn response_of_text(a: Seq<char>) -> Option<SmtResponse> {
    if a == "sat"@ {
        Some(SmtResponse::Sat)
    } else if a == "unsat"@ {
        Some(SmtResponse::Unsat)
    } else if a == "unknown"@ {
        Some(SmtResponse::Unknown)
    } else {
        None
    }
}

/// Reads the reply to a check (see `response_of_text`).
pub fn response_of(answer: &String) -> (r: Option<SmtResponse>)
    ensures
        r == response_of_text(answer@),
{
    if *answer == string_of("sat") {
        Some(SmtResponse::Sat)
    } else if *answer == string_of("unsat") {
        Some(SmtResponse::Unsat)
    } else if *answer == string_of("unknown") {
        Some(SmtResponse::Unknown)
    } else {
        None
    }
}

/// Asks whether the assertions are satisfiable. The conversation grows by
/// the check and, where it can be read, the reply; the answer is then what
/// the reply says (see `response_of_text`), and `None` where the check
/// cannot be sent or no reply can be read.
pub fn check_sat(session: &mut SmtSession) -> (response: Option<SmtResponse>)
    ensures
        log_extends(old(session).log().push((true, "(check-sat)"@)), final(session).log()),
        final(session).log().len() == old(session).log().len() + 1 || final(session).log().len() == old(session).log().len() + 2,
        final(session).log().len() == old(session).log().len() + 2 ==> !final(session).log()[old(session).log().len() + 1int].0
            && response == response_of_text(final(session).log()[old(session).log().len() + 1int].1),
        final(session).log().len() == old(session).log().len() + 1 ==> response is None,
        response matches Some(r) ==> final(session).log() == old(session).log() + seq![
            (true, "(check-sat)"@),
            (false, response_text(r)),
        ],
{
    let ghost start = session.log();
    let sent = send_line(session, "(check-sat)");
    let ghost after_send = session.log();
    if !sent {
        proof {
            assert forall|k: int| 0 <= k < after_send.len() implies #[trigger] session.log()[k] == after_send[k] by {}
        }
        return None;
    }
    let answer = match receive_line(session) {
        Some(a) => a,
        None => {
            proof {
                assert forall|k: int| 0 <= k < after_send.len() implies #[trigger] session.log()[k] == after_send[k] by {}
            }
            return None;
        },
    };
    let r = response_of(&answer);
    proof {
        assert forall|k: int| 0 <= k < after_send.len() implies #[trigger] session.log()[k] == after_send[k] by {}
        assert(session.log()[start.len() + 1int] == (false, answer@));
        if r is Some {
            assert(session.log() =~= start + seq![(true, "(check-sat)"@), (false, response_text(r->0))]);
        }
    }
    r
}

/// The value text in the answer to the query for `v`.
fn value_text_of(v: Var, answer: &String) -> (value: Option<String>)
    ensures
        value matches Some(t) ==> value_text(v, answer@) == Some(t@),
        value is None ==> value_text(v, answer@) is None,
{
    let mut pre = string_of("((");
    let name = var_name(v);
    pre.append(name.as_str());
    pre.append(" ");
    let post = string_of("))");
    proof {
        assert(pre@ =~= "(("@ + var_text(v) + " "@);
    }
    let la = answer.as_str().unicode_len();
    let lp = pre.as_str().unicode_len();
    let lq = post.as_str().unicode_len();
    if lp > la || lq > la - lp {
        return None;
    }
    if !starts_with(answer, &pre) || !ends_with(answer, &post) {
        return None;
    }
    Some(copy_range(answer, lp, la - lq))
}

/// Asks for the model's value of `v`. The conversation grows by the query
/// and, where it can be read, the answer; the value is then what the answer
/// gives (see `answered_value`), and `None` where the query cannot be sent
/// or no answer can be read.
pub fn query_value(session: &mut SmtSession, v: Var) -> (value: Option<u64>)
    ensures
        log_extends(old(session).log().push((true, value_query(v))), final(session).log()),
        final(session).log().len() == old(session).log().len() + 1 || final(session).log().len() == old(session).log().len() + 2,
        final(session).log().len() == old(session).log().len() + 2 ==> !final(session).log()[old(session).log().len() + 1int].0,
        value == (if final(session).log().len() == old(session).log().len() + 2 {
            answered_value(final(session).log(), old(session).log().len() as int, v)
        } else {
            None
        }),
{
    let ghost start = session.log();
    let mut cmd = string_of("(get-value (");
    let name = var_name(v);
    cmd.append(name.as_str());
    cmd.append("))");
    proof {
        assert(cmd@ =~= value_query(v));
    }
    let sent = send_line(session, cmd.as_str());
    let ghost after_send = session.log();
    proof {
        assert(after_send == start.push((true, value_query(v))));
    }
    if !sent {
        proof {
            assert forall|k: int| 0 <= k < after_send.len() implies #[trigger] session.log()[k] == after_send[k] by {}
        }
        return None;
    }
    let answer = match receive_line(session) {
        Some(a) => a,
        None => {
            proof {
                assert forall|k: int| 0 <= k < after_send.len() implies #[trigger] session.log()[k] == after_send[k] by {}
            }
            return None;
        },
    };
    let ghost log = session.log();
    let ghost p = start.len() as int;
    proof {
        assert forall|k: int| 0 <= k < after_send.len() implies #[trigger] log[k] == after_send[k] by {}
        assert(log[p] == (true, value_query(v)));
        assert(log[p + 1] == (false, answer@));
    }
    let text = match value_text_of(v, &answer) {
        Some(t) => t,
        None => {
            proof {
                assert(answered_value(log, p, v) is None);
            }
            return None;
        },
    };
    let x: u64 = match v {
        Var::Black(_) | Var::White(_) => match parse_bitboard_value(text.as_str()) {
            Some(x) => x,
            None => {
                proof {
                    assert(answered_value(log, p, v) is None);
                }
                return None;
            },
        },
        Var::Pos(_) => match parse_bitvector_value(text.as_str()) {
            Some(x) => x as u64,
            None => {
                proof {
                    assert(answered_value(log, p, v) is None);
                }
                return None;
            },
        },
        Var::Turn(_) | Var::Pass(_) => match parse_bool_value(text.as_str()) {
            Some(b) => if b {
                1
            } else {
                0
            },
            None => {
                proof {
                    assert(answered_value(log, p, v) is None);
                }
                return None;
            },
        },
    };
    proof {
        assert(answered_value(log, p, v) == Some(x));
    }
    Some(x)
}

/// Whether the query at position `p` of the conversation, for `v`, failed:
/// no answer was read after it, or the answer does not give a value.
pub open spec fn query_failed(log: Seq<(bool, Seq<char>)>, p: int, v: Var) -> bool {
    &&& p < log.len()
    &&& log[p] == (true, value_query(v))
    &&& log.len() == p + 1 || (log.len() == p + 2 && answered_value(log, p, v) is None)
}

/// Asks for the model's values of `vars`, in order, and stops at the first
/// query that fails. Where none fails, the values, and the conversation
/// grew by exactly those queries and answers; `None` exactly where one
/// fails, after the earlier ones were answered.
pub fn read_values(session: &mut SmtSession, vars: &Vec<Var>) -> (values: Option<Vec<u64>>)
    ensures
        log_extends(old(session).log(), final(session).log()),
        values matches Some(vals) ==> {
            &&& final(session).log().len() == old(session).log().len() + 2 * vars@.len()
            &&& answered_values(final(session).log(), old(session).log().len() as int, vars@, vals@)
        },
        values is None ==> exists|i: int|
            0 <= i < vars@.len() && #[trigger] query_failed(final(session).log(), old(session).log().len() + 2 * i, vars@[i])
                && forall|j: int| 0 <= j < i ==> #[trigger] answered_value(
                final(session).log(),
                old(session).log().len() + 2 * j,
                vars@[j],
            ) is Some,
{
    let ghost start = session.log();
    let ghost s = start.len() as int;
    let mut vals: Vec<u64> = Vec::new();
    let mut i: usize = 0;
    while i < vars.len()
        invariant
            i <= vars@.len(),
            start == old(session).log(),
            s == start.len(),
            log_extends(start, session.log()),
            session.log().len() == s + 2 * i,
            answered_values(session.log(), s, vars@.take(i as int), vals@),
        decreases vars@.len() - i,
    {
        let ghost before = session.log();
        let q = query_value(session, vars[i]);
        let ghost log = session.log();
        proof {
            assert forall|k: int| 0 <= k < before.len() implies #[trigger] log[k] == before[k] by {
                assert(log[k] == before.push((true, value_query(vars@[i as int])))[k]);
            }
            lemma_answered_values_extend(before, log, s, vars@.take(i as int), vals@);
            assert forall|k: int| 0 <= k < start.len() implies #[trigger] log[k] == start[k] by {
                assert(log[k] == before[k]);
            }
        }
        let x = match q {
            Some(x) => x,
            None => {
                proof {
                    assert(log[s + 2 * i] == (true, value_query(vars@[i as int])));
                    assert(query_failed(log, s + 2 * i, vars@[i as int]));
                    assert forall|j: int| 0 <= j < i implies #[trigger] answered_value(log, s + 2 * j, vars@[j]) is Some by {
                        assert(vars@.take(i as int)[j] == vars@[j]);
                    }
                }
                return None;
            },
        };
        let ghost vals_before = vals@;
        vals.push(x);
        proof {
            let vs = vars@.take(i + 1);
            assert forall|j: int| 0 <= j < vs.len() implies #[trigger] answered_value(log, s + 2 * j, vs[j]) == Some(vals@[j]) by {
                if j < i {
                    assert(vs[j] == vars@.take(i as int)[j]);
                    assert(vals@[j] == vals_before[j]);
                    assert(answered_value(log, s + 2 * j, vars@.take(i as int)[j]) == Some(vals_before[j]));
                } else {
                    assert(vs[j] == vars@[i as int]);
                }
            }
        }
        i += 1;
    }
    proof {
        assert(vars@.take(vars@.len() as int) =~= vars@);
    }
    Some(vals)
}

/// The SMT-LIB text of an operator applied to arguments: `(op a1 ... ak)`.
pub open spec fn call_text(op: Seq<char>, args: Seq<Seq<char>>) -> Seq<char> {
    "("@ + op + args_text(args) + ")"@
}

/// Each argument preceded by a blank.
pub open spec fn args_text(args: Seq<Seq<char>>) -> Seq<char>
    decreases args.len(),
{
    if args.len() == 0 {
        seq![]
    } else {
        args_text(args.drop_last()) + " "@ + args.last()
    }
}

/// What the SMT-LIB operator named `op` gives on argument values `args` of
/// widths `widths` (0 for a truth value), read over the 36-bit vectors of
/// the boards: `bvand`, `bvor`, `bvnot`, the shifts `bvshl` (towards the
/// high bits, dropping bits past 36) and `bvlshr` (towards the low bits),
/// both zero for a shift of 36 or more, `concat` (the first argument above
/// the bits of the second), `=`, `distinct`, `ite`, `and`, `or`, `xor`,
/// `not`. Any other operator or number of arguments gives 0.
pub open spec fn smt_value(op: Seq<char>, args: Seq<Value>, widths: Seq<int>) -> Value {
    let x = if args.len() > 0 { bits_of(args[0]) } else { 0 };
    let y = if args.len() > 1 { bits_of(args[1]) } else { 0 };
    if op == "bvand"@ && args.len() == 2 {
        Value::Bits(x & y)
    } else if op == "bvor"@ && args.len() == 2 {
        Value::Bits(x | y)
    } else if op == "bvnot"@ && args.len() == 1 {
        Value::Bits(BOARD_BITS & !x)
    } else if op == "bvshl"@ && args.len() == 2 {
        Value::Bits(if y < 36 { (x << y) & BOARD_BITS } else { 0 })
    } else if op == "bvlshr"@ && args.len() == 2 {
        Value::Bits(if y < 36 { x >> y } else { 0 })
    } else if op == "concat"@ && args.len() == 2 && widths.len() == 2 {
        Value::Bits((x << (widths[1] as u64)) | y)
    } else if op == "="@ && args.len() == 2 {
        Value::Truth(args[0] == args[1])
    } else if op == "distinct"@ && args.len() == 2 {
        Value::Truth(args[0] != args[1])
    } else if op == "ite"@ && args.len() == 3 {
        if truth_of(args[0]) {
            args[1]
        } else {
            args[2]
        }
    } else if op == "and"@ && args.len() == 2 {
        Value::Truth(truth_of(args[0]) && truth_of(args[1]))
    } else if op == "or"@ && args.len() == 2 {
        Value::Truth(truth_of(args[0]) || truth_of(args[1]))
    } else if op == "xor"@ && args.len() == 2 {
        Value::Truth(truth_of(args[0]) != truth_of(args[1]))
    } else if op == "not"@ && args.len() == 1 {
        Value::Truth(!truth_of(args[0]))
    } else {
        Value::Bits(0)
    }
}

/// Whether node `i` is sent as the operator `op` applied to the names of
/// the earlier nodes `args`, and that operator gives on their values what
/// the node denotes.
pub open spec fn sent_as(nodes: Seq<Node>, i: int, m: spec_fn(Var) -> Value, op: Seq<char>, args: Seq<int>) -> bool {
    &&& forall|k: int| 0 <= k < args.len() ==> 0 <= #[trigger] args[k] < i
    &&& node_body(nodes, i) == call_text(op, Seq::new(args.len(), |k: int| term_ref(nodes, args[k])))
    &&& smt_value(
        op,
        Seq::new(args.len(), |k: int| eval(nodes, args[k], m)),
        Seq::new(args.len(), |k: int| node_width(nodes, args[k])),
    ) == eval(nodes, i, m)
}

/// `(op a)` and `(op a b)` and `(op a b c)` are calls.
proof fn lemma_app_calls(op: Seq<char>, a: Seq<char>, b: Seq<char>, c: Seq<char>)
    ensures
        app1(op, a) == call_text(op, seq![a]),
        app2(op, a, b) == call_text(op, seq![a, b]),
        app3(op, a, b, c) == call_text(op, seq![a, b, c]),
{
    let e = Seq::<Seq<char>>::empty();
    assert(seq![a].drop_last() =~= e);
    assert(seq![a, b].drop_last() =~= seq![a]);
    assert(seq![a, b, c].drop_last() =~= seq![a, b]);
    assert(args_text(e) == Seq::<char>::empty());
    assert(args_text(seq![a]) == args_text(e) + " "@ + a);
    assert(args_text(seq![a]) =~= " "@ + a);
    assert(args_text(seq![a, b]) == args_text(seq![a]) + " "@ + b);
    assert(args_text(seq![a, b]) =~= " "@ + a + " "@ + b);
    assert(args_text(seq![a, b, c]) == args_text(seq![a, b]) + " "@ + c);
    assert(args_text(seq![a, b, c]) =~= " "@ + a + " "@ + b + " "@ + c);
    assert(app1(op, a) =~= call_text(op, seq![a]));
    assert(app2(op, a, b) =~= call_text(op, seq![a, b]));
    assert(app3(op, a, b, c) =~= call_text(op, seq![a, b, c]));
}

/// Node `i` sent as `op` applied to the names of earlier nodes `args`,
/// where that operator gives the node's value, is `sent_as`.
proof fn lemma_sent(nodes: Seq<Node>, i: int, m: spec_fn(Var) -> Value, op: Seq<char>, args: Seq<int>)
    requires
        forall|k: int| 0 <= k < args.len() ==> 0 <= #[trigger] args[k] < i,
        node_body(nodes, i) == call_text(op, Seq::new(args.len(), |k: int| term_ref(nodes, args[k]))),
        smt_value(
            op,
            Seq::new(args.len(), |k: int| eval(nodes, args[k], m)),
            Seq::new(args.len(), |k: int| node_width(nodes, args[k])),
        ) == eval(nodes, i, m),
    ensures
        sent_as(nodes, i, m, op, args),
{
}
/// What `bvand` gives.
proof fn lemma_value_bvand(x: Value, y: Value, z: Value, ws: Seq<int>)
    ensures
        smt_value("bvand"@, seq![x, y], ws) == Value::Bits(bits_of(x) & bits_of(y)),
{
    reveal_strlit("bvand");
    reveal_strlit("bvor");
    reveal_strlit("bvnot");
    reveal_strlit("bvshl");
    reveal_strlit("bvlshr");
    reveal_strlit("concat");
    reveal_strlit("=");
    reveal_strlit("distinct");
    reveal_strlit("ite");
    reveal_strlit("and");
    reveal_strlit("or");
    reveal_strlit("xor");
    reveal_strlit("not");
}
/// What `bvor` gives.
proof fn lemma_value_bvor(x: Value, y: Value, z: Value, ws: Seq<int>)
    ensures
        smt_value("bvor"@, seq![x, y], ws) == Value::Bits(bits_of(x) | bits_of(y)),
{
    reveal_strlit("bvand");
    reveal_strlit("bvor");
    reveal_strlit("bvnot");
    reveal_strlit("bvshl");
    reveal_strlit("bvlshr");
    reveal_strlit("concat");
    reveal_strlit("=");
    reveal_strlit("distinct");
    reveal_strlit("ite");
    reveal_strlit("and");
    reveal_strlit("or");
    reveal_strlit("xor");
    reveal_strlit("not");
    assert("bvor"@ != "bvand"@) by {
        assert("bvor"@.len() != "bvand"@.len());
    }
}
/// What `bvnot` gives.
proof fn lemma_value_bvnot(x: Value, y: Value, z: Value, ws: Seq<int>)
    ensures
        smt_value("bvnot"@, seq![x], ws) == Value::Bits(BOARD_BITS & !bits_of(x)),
{
    reveal_strlit("bvand");
    reveal_strlit("bvor");
    reveal_strlit("bvnot");
    reveal_strlit("bvshl");
    reveal_strlit("bvlshr");
    reveal_strlit("concat");
    reveal_strlit("=");
    reveal_strlit("distinct");
    reveal_strlit("ite");
    reveal_strlit("and");
    reveal_strlit("or");
    reveal_strlit("xor");
    reveal_strlit("not");
    assert("bvnot"@ != "bvand"@) by {
        assert("bvnot"@[2] != "bvand"@[2]);
    }
    assert("bvnot"@ != "bvor"@) by {
        assert("bvnot"@.len() != "bvor"@.len());
    }
}
/// What `bvshl` gives.
proof fn lemma_value_bvshl(x: Value, y: Value, z: Value, ws: Seq<int>)
    ensures
        smt_value("bvshl"@, seq![x, y], ws) == Value::Bits(if bits_of(y) < 36 { (bits_of(x) << bits_of(y)) & BOARD_BITS } else { 0 }),
{
    reveal_strlit("bvand");
    reveal_strlit("bvor");
    reveal_strlit("bvnot");
    reveal_strlit("bvshl");
    reveal_strlit("bvlshr");
    reveal_strlit("concat");
    reveal_strlit("=");
    reveal_strlit("distinct");
    reveal_strlit("ite");
    reveal_strlit("and");
    reveal_strlit("or");
    reveal_strlit("xor");
    reveal_strlit("not");
    assert("bvshl"@ != "bvand"@) by {
        assert("bvshl"@[2] != "bvand"@[2]);
    }
    assert("bvshl"@ != "bvor"@) by {
        assert("bvshl"@.len() != "bvor"@.len());
    }
    assert("bvshl"@ != "bvnot"@) by {
        assert("bvshl"@[2] != "bvnot"@[2]);
    }
}
/// What `bvlshr` gives.
proof fn lemma_value_bvlshr(x: Value, y: Value, z: Value, ws: Seq<int>)
    ensures
        smt_value("bvlshr"@, seq![x, y], ws) == Value::Bits(if bits_of(y) < 36 { bits_of(x) >> bits_of(y) } else { 0 }),
{
    reveal_strlit("bvand");
    reveal_strlit("bvor");
    reveal_strlit("bvnot");
    reveal_strlit("bvshl");
    reveal_strlit("bvlshr");
    reveal_strlit("concat");
    reveal_strlit("=");
    reveal_strlit("distinct");
    reveal_strlit("ite");
    reveal_strlit("and");
    reveal_strlit("or");
    reveal_strlit("xor");
    reveal_strlit("not");
    assert("bvlshr"@ != "bvand"@) by {
        assert("bvlshr"@.len() != "bvand"@.len());
    }
    assert("bvlshr"@ != "bvor"@) by {
        assert("bvlshr"@.len() != "bvor"@.len());
    }
    assert("bvlshr"@ != "bvnot"@) by {
        assert("bvlshr"@.len() != "bvnot"@.len());
    }
    assert("bvlshr"@ != "bvshl"@) by {
        assert("bvlshr"@.len() != "bvshl"@.len());
    }
}
/// What `=` gives.
proof fn lemma_value_eq(x: Value, y: Value, z: Value, ws: Seq<int>)
    ensures
        smt_value("="@, seq![x, y], ws) == Value::Truth(x == y),
{
    reveal_strlit("bvand");
    reveal_strlit("bvor");
    reveal_strlit("bvnot");
    reveal_strlit("bvshl");
    reveal_strlit("bvlshr");
    reveal_strlit("concat");
    reveal_strlit("=");
    reveal_strlit("distinct");
    reveal_strlit("ite");
    reveal_strlit("and");
    reveal_strlit("or");
    reveal_strlit("xor");
    reveal_strlit("not");
    assert("="@ != "bvand"@) by {
        assert("="@.len() != "bvand"@.len());
    }
    assert("="@ != "bvor"@) by {
        assert("="@.len() != "bvor"@.len());
    }
    assert("="@ != "bvnot"@) by {
        assert("="@.len() != "bvnot"@.len());
    }
    assert("="@ != "bvshl"@) by {
        assert("="@.len() != "bvshl"@.len());
    }
    assert("="@ != "bvlshr"@) by {
        assert("="@.len() != "bvlshr"@.len());
    }
    assert("="@ != "concat"@) by {
        assert("="@.len() != "concat"@.len());
    }
}
/// What `distinct` gives.
proof fn lemma_value_distinct(x: Value, y: Value, z: Value, ws: Seq<int>)
    ensures
        smt_value("distinct"@, seq![x, y], ws) == Value::Truth(x != y),
{
    reveal_strlit("bvand");
    reveal_strlit("bvor");
    reveal_strlit("bvnot");
    reveal_strlit("bvshl");
    reveal_strlit("bvlshr");
    reveal_strlit("concat");
    reveal_strlit("=");
    reveal_strlit("distinct");
    reveal_strlit("ite");
    reveal_strlit("and");
    reveal_strlit("or");
    reveal_strlit("xor");
    reveal_strlit("not");
    assert("distinct"@ != "bvand"@) by {
        assert("distinct"@.len() != "bvand"@.len());
    }
    assert("distinct"@ != "bvor"@) by {
        assert("distinct"@.len() != "bvor"@.len());
    }
    assert("distinct"@ != "bvnot"@) by {
        assert("distinct"@.len() != "bvnot"@.len());
    }
    assert("distinct"@ != "bvshl"@) by {
        assert("distinct"@.len() != "bvshl"@.len());
    }
    assert("distinct"@ != "bvlshr"@) by {
        assert("distinct"@.len() != "bvlshr"@.len());
    }
    assert("distinct"@ != "concat"@) by {
        assert("distinct"@.len() != "concat"@.len());
    }
    assert("distinct"@ != "="@) by {
        assert("distinct"@.len() != "="@.len());
    }
}
/// What `ite` gives.
proof fn lemma_value_ite(x: Value, y: Value, z: Value, ws: Seq<int>)
    ensures
        smt_value("ite"@, seq![x, y, z], ws) == if truth_of(x) { y } else { z },
{
    reveal_strlit("bvand");
    reveal_strlit("bvor");
    reveal_strlit("bvnot");
    reveal_strlit("bvshl");
    reveal_strlit("bvlshr");
    reveal_strlit("concat");
    reveal_strlit("=");
    reveal_strlit("distinct");
    reveal_strlit("ite");
    reveal_strlit("and");
    reveal_strlit("or");
    reveal_strlit("xor");
    reveal_strlit("not");
    assert("ite"@ != "bvand"@) by {
        assert("ite"@.len() != "bvand"@.len());
    }
    assert("ite"@ != "bvor"@) by {
        assert("ite"@.len() != "bvor"@.len());
    }
    assert("ite"@ != "bvnot"@) by {
        assert("ite"@.len() != "bvnot"@.len());
    }
    assert("ite"@ != "bvshl"@) by {
        assert("ite"@.len() != "bvshl"@.len());
    }
    assert("ite"@ != "bvlshr"@) by {
        assert("ite"@.len() != "bvlshr"@.len());
    }
    assert("ite"@ != "concat"@) by {
        assert("ite"@.len() != "concat"@.len());
    }
    assert("ite"@ != "="@) by {
        assert("ite"@.len() != "="@.len());
    }
    assert("ite"@ != "distinct"@) by {
        assert("ite"@.len() != "distinct"@.len());
    }
}
/// What `and` gives.
proof fn lemma_value_and(x: Value, y: Value, z: Value, ws: Seq<int>)
    ensures
        smt_value("and"@, seq![x, y], ws) == Value::Truth(truth_of(x) && truth_of(y)),
{
    reveal_strlit("bvand");
    reveal_strlit("bvor");
    reveal_strlit("bvnot");
    reveal_strlit("bvshl");
    reveal_strlit("bvlshr");
    reveal_strlit("concat");
    reveal_strlit("=");
    reveal_strlit("distinct");
    reveal_strlit("ite");
    reveal_strlit("and");
    reveal_strlit("or");
    reveal_strlit("xor");
    reveal_strlit("not");
    assert("and"@ != "bvand"@) by {
        assert("and"@.len() != "bvand"@.len());
    }
    assert("and"@ != "bvor"@) by {
        assert("and"@.len() != "bvor"@.len());
    }
    assert("and"@ != "bvnot"@) by {
        assert("and"@.len() != "bvnot"@.len());
    }
    assert("and"@ != "bvshl"@) by {
        assert("and"@.len() != "bvshl"@.len());
    }
    assert("and"@ != "bvlshr"@) by {
        assert("and"@.len() != "bvlshr"@.len());
    }
    assert("and"@ != "concat"@) by {
        assert("and"@.len() != "concat"@.len());
    }
    assert("and"@ != "="@) by {
        assert("and"@.len() != "="@.len());
    }
    assert("and"@ != "distinct"@) by {
        assert("and"@.len() != "distinct"@.len());
    }
    assert("and"@ != "ite"@) by {
        assert("and"@[0] != "ite"@[0]);
    }
}
/// What `or` gives.
proof fn lemma_value_or(x: Value, y: Value, z: Value, ws: Seq<int>)
    ensures
        smt_value("or"@, seq![x, y], ws) == Value::Truth(truth_of(x) || truth_of(y)),
{
    reveal_strlit("bvand");
    reveal_strlit("bvor");
    reveal_strlit("bvnot");
    reveal_strlit("bvshl");
    reveal_strlit("bvlshr");
    reveal_strlit("concat");
    reveal_strlit("=");
    reveal_strlit("distinct");
    reveal_strlit("ite");
    reveal_strlit("and");
    reveal_strlit("or");
    reveal_strlit("xor");
    reveal_strlit("not");
    assert("or"@ != "bvand"@) by {
        assert("or"@.len() != "bvand"@.len());
    }
    assert("or"@ != "bvor"@) by {
        assert("or"@.len() != "bvor"@.len());
    }
    assert("or"@ != "bvnot"@) by {
        assert("or"@.len() != "bvnot"@.len());
    }
    assert("or"@ != "bvshl"@) by {
        assert("or"@.len() != "bvshl"@.len());
    }
    assert("or"@ != "bvlshr"@) by {
        assert("or"@.len() != "bvlshr"@.len());
    }
    assert("or"@ != "concat"@) by {
        assert("or"@.len() != "concat"@.len());
    }
    assert("or"@ != "="@) by {
        assert("or"@.len() != "="@.len());
    }
    assert("or"@ != "distinct"@) by {
        assert("or"@.len() != "distinct"@.len());
    }
    assert("or"@ != "ite"@) by {
        assert("or"@.len() != "ite"@.len());
    }
    assert("or"@ != "and"@) by {
        assert("or"@.len() != "and"@.len());
    }
}
/// What `xor` gives.
proof fn lemma_value_xor(x: Value, y: Value, z: Value, ws: Seq<int>)
    ensures
        smt_value("xor"@, seq![x, y], ws) == Value::Truth(truth_of(x) != truth_of(y)),
{
    reveal_strlit("bvand");
    reveal_strlit("bvor");
    reveal_strlit("bvnot");
    reveal_strlit("bvshl");
    reveal_strlit("bvlshr");
    reveal_strlit("concat");
    reveal_strlit("=");
    reveal_strlit("distinct");
    reveal_strlit("ite");
    reveal_strlit("and");
    reveal_strlit("or");
    reveal_strlit("xor");
    reveal_strlit("not");
    assert("xor"@ != "bvand"@) by {
        assert("xor"@.len() != "bvand"@.len());
    }
    assert("xor"@ != "bvor"@) by {
        assert("xor"@.len() != "bvor"@.len());
    }
    assert("xor"@ != "bvnot"@) by {
        assert("xor"@.len() != "bvnot"@.len());
    }
    assert("xor"@ != "bvshl"@) by {
        assert("xor"@.len() != "bvshl"@.len());
    }
    assert("xor"@ != "bvlshr"@) by {
        assert("xor"@.len() != "bvlshr"@.len());
    }
    assert("xor"@ != "concat"@) by {
        assert("xor"@.len() != "concat"@.len());
    }
    assert("xor"@ != "="@) by {
        assert("xor"@.len() != "="@.len());
    }
    assert("xor"@ != "distinct"@) by {
        assert("xor"@.len() != "distinct"@.len());
    }
    assert("xor"@ != "ite"@) by {
        assert("xor"@[0] != "ite"@[0]);
    }
    assert("xor"@ != "and"@) by {
        assert("xor"@[0] != "and"@[0]);
    }
    assert("xor"@ != "or"@) by {
        assert("xor"@.len() != "or"@.len());
    }
}
/// What `not` gives.
proof fn lemma_value_not(x: Value, y: Value, z: Value, ws: Seq<int>)
    ensures
        smt_value("not"@, seq![x], ws) == Value::Truth(!truth_of(x)),
{
    reveal_strlit("bvand");
    reveal_strlit("bvor");
    reveal_strlit("bvnot");
    reveal_strlit("bvshl");
    reveal_strlit("bvlshr");
    reveal_strlit("concat");
    reveal_strlit("=");
    reveal_strlit("distinct");
    reveal_strlit("ite");
    reveal_strlit("and");
    reveal_strlit("or");
    reveal_strlit("xor");
    reveal_strlit("not");
    assert("not"@ != "bvand"@) by {
        assert("not"@.len() != "bvand"@.len());
    }
    assert("not"@ != "bvor"@) by {
        assert("not"@.len() != "bvor"@.len());
    }
    assert("not"@ != "bvnot"@) by {
        assert("not"@.len() != "bvnot"@.len());
    }
    assert("not"@ != "bvshl"@) by {
        assert("not"@.len() != "bvshl"@.len());
    }
    assert("not"@ != "bvlshr"@) by {
        assert("not"@.len() != "bvlshr"@.len());
    }
    assert("not"@ != "concat"@) by {
        assert("not"@.len() != "concat"@.len());
    }
    assert("not"@ != "="@) by {
        assert("not"@.len() != "="@.len());
    }
    assert("not"@ != "distinct"@) by {
        assert("not"@.len() != "distinct"@.len());
    }
    assert("not"@ != "ite"@) by {
        assert("not"@[0] != "ite"@[0]);
    }
    assert("not"@ != "and"@) by {
        assert("not"@[0] != "and"@[0]);
    }
    assert("not"@ != "or"@) by {
        assert("not"@.len() != "or"@.len());
    }
    assert("not"@ != "xor"@) by {
        assert("not"@[0] != "xor"@[0]);
    }
}
/// What `concat` gives.
proof fn lemma_value_concat(x: Value, y: Value, ws: Seq<int>)
    requires
        ws.len() == 2,
    ensures
        smt_value("concat"@, seq![x, y], ws) == Value::Bits((bits_of(x) << (ws[1] as u64)) | bits_of(y)),
{
    reveal_strlit("bvand");
    reveal_strlit("bvor");
    reveal_strlit("bvnot");
    reveal_strlit("bvshl");
    reveal_strlit("bvlshr");
    reveal_strlit("concat");
    reveal_strlit("=");
    reveal_strlit("distinct");
    reveal_strlit("ite");
    reveal_strlit("and");
    reveal_strlit("or");
    reveal_strlit("xor");
    reveal_strlit("not");
    assert("concat"@ != "bvand"@) by {
        assert("concat"@.len() != "bvand"@.len());
    }
    assert("concat"@ != "bvor"@) by {
        assert("concat"@.len() != "bvor"@.len());
    }
    assert("concat"@ != "bvnot"@) by {
        assert("concat"@.len() != "bvnot"@.len());
    }
    assert("concat"@ != "bvshl"@) by {
        assert("concat"@.len() != "bvshl"@.len());
    }
    assert("concat"@ != "bvlshr"@) by {
        assert("concat"@[0] != "bvlshr"@[0]);
    }
}

/// A `BvAnd` node is sent as `bvand` of its operands (see `sent_as`).
proof fn lemma_denotes_bvand(nodes: Seq<Node>, i: int, m: spec_fn(Var) -> Value, a: usize, b: usize)
    requires
        0 <= i < nodes.len(),
        nodes[i] == Node::BvAnd(a, b),
        a < i,
        b < i,
    ensures
        sent_as(nodes, i, m, "bvand"@, seq![a as int, b as int]),
{
    let ra = term_ref(nodes, a as int);
    let rb = term_ref(nodes, b as int);
    let va = eval(nodes, a as int, m);
    let vb = eval(nodes, b as int, m);
    lemma_app_calls("bvand"@, ra, rb, rb);
    let args = seq![a as int, b as int];
    assert(Seq::new(2, |k: int| term_ref(nodes, args[k])) =~= seq![ra, rb]);
    assert(Seq::new(2, |k: int| eval(nodes, args[k], m)) =~= seq![va, vb]);
    lemma_value_bvand(va, vb, vb, Seq::new(2, |k: int| node_width(nodes, args[k])));
    lemma_sent(nodes, i, m, "bvand"@, args);
}

/// A `BvOr` node is sent as `bvor` of its operands (see `sent_as`).
proof fn lemma_denotes_bvor(nodes: Seq<Node>, i: int, m: spec_fn(Var) -> Value, a: usize, b: usize)
    requires
        0 <= i < nodes.len(),
        nodes[i] == Node::BvOr(a, b),
        a < i,
        b < i,
    ensures
        sent_as(nodes, i, m, "bvor"@, seq![a as int, b as int]),
{
    let ra = term_ref(nodes, a as int);
    let rb = term_ref(nodes, b as int);
    let va = eval(nodes, a as int, m);
    let vb = eval(nodes, b as int, m);
    lemma_app_calls("bvor"@, ra, rb, rb);
    let args = seq![a as int, b as int];
    assert(Seq::new(2, |k: int| term_ref(nodes, args[k])) =~= seq![ra, rb]);
    assert(Seq::new(2, |k: int| eval(nodes, args[k], m)) =~= seq![va, vb]);
    lemma_value_bvor(va, vb, vb, Seq::new(2, |k: int| node_width(nodes, args[k])));
    lemma_sent(nodes, i, m, "bvor"@, args);
}

/// A `BvShl` node is sent as `bvshl` of its operands (see `sent_as`).
proof fn lemma_denotes_bvshl(nodes: Seq<Node>, i: int, m: spec_fn(Var) -> Value, a: usize, b: usize)
    requires
        0 <= i < nodes.len(),
        nodes[i] == Node::BvShl(a, b),
        a < i,
        b < i,
    ensures
        sent_as(nodes, i, m, "bvshl"@, seq![a as int, b as int]),
{
    let ra = term_ref(nodes, a as int);
    let rb = term_ref(nodes, b as int);
    let va = eval(nodes, a as int, m);
    let vb = eval(nodes, b as int, m);
    lemma_app_calls("bvshl"@, ra, rb, rb);
    let args = seq![a as int, b as int];
    assert(Seq::new(2, |k: int| term_ref(nodes, args[k])) =~= seq![ra, rb]);
    assert(Seq::new(2, |k: int| eval(nodes, args[k], m)) =~= seq![va, vb]);
    lemma_value_bvshl(va, vb, vb, Seq::new(2, |k: int| node_width(nodes, args[k])));
    lemma_sent(nodes, i, m, "bvshl"@, args);
}

/// A `BvLshr` node is sent as `bvlshr` of its operands (see `sent_as`).
proof fn lemma_denotes_bvlshr(nodes: Seq<Node>, i: int, m: spec_fn(Var) -> Value, a: usize, b: usize)
    requires
        0 <= i < nodes.len(),
        nodes[i] == Node::BvLshr(a, b),
        a < i,
        b < i,
    ensures
        sent_as(nodes, i, m, "bvlshr"@, seq![a as int, b as int]),
{
    let ra = term_ref(nodes, a as int);
    let rb = term_ref(nodes, b as int);
    let va = eval(nodes, a as int, m);
    let vb = eval(nodes, b as int, m);
    lemma_app_calls("bvlshr"@, ra, rb, rb);
    let args = seq![a as int, b as int];
    assert(Seq::new(2, |k: int| term_ref(nodes, args[k])) =~= seq![ra, rb]);
    assert(Seq::new(2, |k: int| eval(nodes, args[k], m)) =~= seq![va, vb]);
    lemma_value_bvlshr(va, vb, vb, Seq::new(2, |k: int| node_width(nodes, args[k])));
    lemma_sent(nodes, i, m, "bvlshr"@, args);
}

/// A `Eq` node is sent as `=` of its operands (see `sent_as`).
proof fn lemma_denotes_eq(nodes: Seq<Node>, i: int, m: spec_fn(Var) -> Value, a: usize, b: usize)
    requires
        0 <= i < nodes.len(),
        nodes[i] == Node::Eq(a, b),
        a < i,
        b < i,
    ensures
        sent_as(nodes, i, m, "="@, seq![a as int, b as int]),
{
    let ra = term_ref(nodes, a as int);
    let rb = term_ref(nodes, b as int);
    let va = eval(nodes, a as int, m);
    let vb = eval(nodes, b as int, m);
    lemma_app_calls("="@, ra, rb, rb);
    let args = seq![a as int, b as int];
    assert(Seq::new(2, |k: int| term_ref(nodes, args[k])) =~= seq![ra, rb]);
    assert(Seq::new(2, |k: int| eval(nodes, args[k], m)) =~= seq![va, vb]);
    lemma_value_eq(va, vb, vb, Seq::new(2, |k: int| node_width(nodes, args[k])));
    lemma_sent(nodes, i, m, "="@, args);
}

/// A `Distinct` node is sent as `distinct` of its operands (see `sent_as`).
proof fn lemma_denotes_distinct(nodes: Seq<Node>, i: int, m: spec_fn(Var) -> Value, a: usize, b: usize)
    requires
        0 <= i < nodes.len(),
        nodes[i] == Node::Distinct(a, b),
        a < i,
        b < i,
    ensures
        sent_as(nodes, i, m, "distinct"@, seq![a as int, b as int]),
{
    let ra = term_ref(nodes, a as int);
    let rb = term_ref(nodes, b as int);
    let va = eval(nodes, a as int, m);
    let vb = eval(nodes, b as int, m);
    lemma_app_calls("distinct"@, ra, rb, rb);
    let args = seq![a as int, b as int];
    assert(Seq::new(2, |k: int| term_ref(nodes, args[k])) =~= seq![ra, rb]);
    assert(Seq::new(2, |k: int| eval(nodes, args[k], m)) =~= seq![va, vb]);
    lemma_value_distinct(va, vb, vb, Seq::new(2, |k: int| node_width(nodes, args[k])));
    lemma_sent(nodes, i, m, "distinct"@, args);
}

/// A `And` node is sent as `and` of its operands (see `sent_as`).
proof fn lemma_denotes_and(nodes: Seq<Node>, i: int, m: spec_fn(Var) -> Value, a: usize, b: usize)
    requires
        0 <= i < nodes.len(),
        nodes[i] == Node::And(a, b),
        a < i,
        b < i,
    ensures
        sent_as(nodes, i, m, "and"@, seq![a as int, b as int]),
{
    let ra = term_ref(nodes, a as int);
    let rb = term_ref(nodes, b as int);
    let va = eval(nodes, a as int, m);
    let vb = eval(nodes, b as int, m);
    lemma_app_calls("and"@, ra, rb, rb);
    let args = seq![a as int, b as int];
    assert(Seq::new(2, |k: int| term_ref(nodes, args[k])) =~= seq![ra, rb]);
    assert(Seq::new(2, |k: int| eval(nodes, args[k], m)) =~= seq![va, vb]);
    lemma_value_and(va, vb, vb, Seq::new(2, |k: int| node_width(nodes, args[k])));
    lemma_sent(nodes, i, m, "and"@, args);
}

/// A `Or` node is sent as `or` of its operands (see `sent_as`).
proof fn lemma_denotes_or(nodes: Seq<Node>, i: int, m: spec_fn(Var) -> Value, a: usize, b: usize)
    requires
        0 <= i < nodes.len(),
        nodes[i] == Node::Or(a, b),
        a < i,
        b < i,
    ensures
        sent_as(nodes, i, m, "or"@, seq![a as int, b as int]),
{
    let ra = term_ref(nodes, a as int);
    let rb = term_ref(nodes, b as int);
    let va = eval(nodes, a as int, m);
    let vb = eval(nodes, b as int, m);
    lemma_app_calls("or"@, ra, rb, rb);
    let args = seq![a as int, b as int];
    assert(Seq::new(2, |k: int| term_ref(nodes, args[k])) =~= seq![ra, rb]);
    assert(Seq::new(2, |k: int| eval(nodes, args[k], m)) =~= seq![va, vb]);
    lemma_value_or(va, vb, vb, Seq::new(2, |k: int| node_width(nodes, args[k])));
    lemma_sent(nodes, i, m, "or"@, args);
}

/// A `Xor` node is sent as `xor` of its operands (see `sent_as`).
proof fn lemma_denotes_xor(nodes: Seq<Node>, i: int, m: spec_fn(Var) -> Value, a: usize, b: usize)
    requires
        0 <= i < nodes.len(),
        nodes[i] == Node::Xor(a, b),
        a < i,
        b < i,
    ensures
        sent_as(nodes, i, m, "xor"@, seq![a as int, b as int]),
{
    let ra = term_ref(nodes, a as int);
    let rb = term_ref(nodes, b as int);
    let va = eval(nodes, a as int, m);
    let vb = eval(nodes, b as int, m);
    lemma_app_calls("xor"@, ra, rb, rb);
    let args = seq![a as int, b as int];
    assert(Seq::new(2, |k: int| term_ref(nodes, args[k])) =~= seq![ra, rb]);
    assert(Seq::new(2, |k: int| eval(nodes, args[k], m)) =~= seq![va, vb]);
    lemma_value_xor(va, vb, vb, Seq::new(2, |k: int| node_width(nodes, args[k])));
    lemma_sent(nodes, i, m, "xor"@, args);
}

/// A `BvNot` node is sent as `bvnot` of its operand (see `sent_as`).
proof fn lemma_denotes_bvnot(nodes: Seq<Node>, i: int, m: spec_fn(Var) -> Value, a: usize)
    requires
        0 <= i < nodes.len(),
        nodes[i] == Node::BvNot(a),
        a < i,
    ensures
        sent_as(nodes, i, m, "bvnot"@, seq![a as int]),
{
    let ra = term_ref(nodes, a as int);
    let va = eval(nodes, a as int, m);
    lemma_app_calls("bvnot"@, ra, ra, ra);
    let args = seq![a as int];
    assert(Seq::new(1, |k: int| term_ref(nodes, args[k])) =~= seq![ra]);
    assert(Seq::new(1, |k: int| eval(nodes, args[k], m)) =~= seq![va]);
    lemma_value_bvnot(va, va, va, Seq::new(1, |k: int| node_width(nodes, args[k])));
    lemma_sent(nodes, i, m, "bvnot"@, args);
}

/// A `Not` node is sent as `not` of its operand (see `sent_as`).
proof fn lemma_denotes_not(nodes: Seq<Node>, i: int, m: spec_fn(Var) -> Value, a: usize)
    requires
        0 <= i < nodes.len(),
        nodes[i] == Node::Not(a),
        a < i,
    ensures
        sent_as(nodes, i, m, "not"@, seq![a as int]),
{
    let ra = term_ref(nodes, a as int);
    let va = eval(nodes, a as int, m);
    lemma_app_calls("not"@, ra, ra, ra);
    let args = seq![a as int];
    assert(Seq::new(1, |k: int| term_ref(nodes, args[k])) =~= seq![ra]);
    assert(Seq::new(1, |k: int| eval(nodes, args[k], m)) =~= seq![va]);
    lemma_value_not(va, va, va, Seq::new(1, |k: int| node_width(nodes, args[k])));
    lemma_sent(nodes, i, m, "not"@, args);
}

/// An `Ite` node is sent as `ite` of its operands (see `sent_as`).
proof fn lemma_denotes_ite(nodes: Seq<Node>, i: int, m: spec_fn(Var) -> Value, c: usize, t: usize, e: usize)
    requires
        0 <= i < nodes.len(),
        nodes[i] == Node::Ite(c, t, e),
        c < i,
        t < i,
        e < i,
    ensures
        sent_as(nodes, i, m, "ite"@, seq![c as int, t as int, e as int]),
{
    let rc = term_ref(nodes, c as int);
    let rt = term_ref(nodes, t as int);
    let re = term_ref(nodes, e as int);
    let vc = eval(nodes, c as int, m);
    let vt = eval(nodes, t as int, m);
    let ve = eval(nodes, e as int, m);
    lemma_app_calls("ite"@, rc, rt, re);
    let args = seq![c as int, t as int, e as int];
    assert(Seq::new(3, |k: int| term_ref(nodes, args[k])) =~= seq![rc, rt, re]);
    assert(Seq::new(3, |k: int| eval(nodes, args[k], m)) =~= seq![vc, vt, ve]);
    lemma_value_ite(vc, vt, ve, Seq::new(3, |k: int| node_width(nodes, args[k])));
    lemma_sent(nodes, i, m, "ite"@, args);
}

/// A `Concat` node whose low part has the node's low width is sent as
/// `concat` of its operands (see `sent_as`).
proof fn lemma_denotes_concat(nodes: Seq<Node>, i: int, m: spec_fn(Var) -> Value, a: usize, b: usize, w: u64)
    requires
        0 <= i < nodes.len(),
        nodes[i] == Node::Concat(a, b, w),
        a < i,
        b < i,
        node_width(nodes, b as int) == w,
    ensures
        sent_as(nodes, i, m, "concat"@, seq![a as int, b as int]),
{
    let ra = term_ref(nodes, a as int);
    let rb = term_ref(nodes, b as int);
    let va = eval(nodes, a as int, m);
    let vb = eval(nodes, b as int, m);
    lemma_app_calls("concat"@, ra, rb, rb);
    let args = seq![a as int, b as int];
    let ws = Seq::new(2, |k: int| node_width(nodes, args[k]));
    assert(Seq::new(2, |k: int| term_ref(nodes, args[k])) =~= seq![ra, rb]);
    assert(Seq::new(2, |k: int| eval(nodes, args[k], m)) =~= seq![va, vb]);
    assert(ws[1] == w);
    lemma_value_concat(va, vb, ws);
    lemma_sent(nodes, i, m, "concat"@, args);
}

/// Every operator node is sent as an SMT-LIB operator applied to the names
/// of earlier nodes, and what that operator gives on their values (see
/// `smt_value`) is what the node denotes under every assignment: the text
/// handed to the solver means what the arena means. (A concatenation is
/// read with the width of its low part.)
pub proof fn lemma_node_text_denotes(nodes: Seq<Node>, i: int, m: spec_fn(Var) -> Value)
    requires
        0 <= i < nodes.len(),
        operands_below(nodes[i], i),
        !(nodes[i] is Lit),
        !(nodes[i] is Const),
        nodes[i] matches Node::Concat(_, b, w) ==> node_width(nodes, b as int) == w,
    ensures
        exists|op: Seq<char>, args: Seq<int>| #[trigger] sent_as(nodes, i, m, op, args),
{
    match nodes[i] {
        Node::BvAnd(a, b) => lemma_denotes_bvand(nodes, i, m, a, b),
        Node::BvOr(a, b) => lemma_denotes_bvor(nodes, i, m, a, b),
        Node::BvShl(a, b) => lemma_denotes_bvshl(nodes, i, m, a, b),
        Node::BvLshr(a, b) => lemma_denotes_bvlshr(nodes, i, m, a, b),
        Node::Eq(a, b) => lemma_denotes_eq(nodes, i, m, a, b),
        Node::Distinct(a, b) => lemma_denotes_distinct(nodes, i, m, a, b),
        Node::And(a, b) => lemma_denotes_and(nodes, i, m, a, b),
        Node::Or(a, b) => lemma_denotes_or(nodes, i, m, a, b),
        Node::Xor(a, b) => lemma_denotes_xor(nodes, i, m, a, b),
        Node::BvNot(a) => lemma_denotes_bvnot(nodes, i, m, a),
        Node::Not(a) => lemma_denotes_not(nodes, i, m, a),
        Node::Ite(c, t, e) => lemma_denotes_ite(nodes, i, m, c, t, e),
        Node::Concat(a, b, w) => lemma_denotes_concat(nodes, i, m, a, b, w),
        _ => {},
    }
}

/// The words `true` and `false` of a model.
pub open spec fn bool_word(b: bool) -> Seq<char> {
    if b {
        seq!['t', 'r', 'u', 'e']
    } else {
        seq!['f', 'a', 'l', 's', 'e']
    }
}

/// A model's text reads as the truth value `b` exactly where, without
/// blanks around it, it is the word for `b`.
pub proof fn lemma_model_bool_reads_word(s: Seq<char>, b: bool)
    ensures
        model_bool(s) == Some(b) <==> trimmed(s) == bool_word(b),
{
    assert(bool_word(true) != bool_word(false)) by {
        assert(bool_word(true).len() != bool_word(false).len());
    }
}

/// The answer `((name true))` or `((name false))` to the query for a flag
/// is read as 1 or 0.
pub proof fn lemma_flag_answer(log: Seq<(bool, Seq<char>)>, p: int, v: Var, b: bool)
    requires
        v is Turn || v is Pass,
        0 <= p,
        p + 1 < log.len(),
        log[p] == (true, value_query(v)),
        log[p + 1] == (false, "(("@ + var_text(v) + " "@ + bool_word(b) + "))"@),
    ensures
        answered_value(log, p, v) == Some(if b { 1u64 } else { 0u64 }),
{
    reveal_strlit("((");
    reveal_strlit(" ");
    reveal_strlit("))");
    let w = bool_word(b);
    let pre = "(("@ + var_text(v) + " "@;
    let post = "))"@;
    let answer = log[p + 1].1;
    assert(answer =~= pre + w + post);
    assert(answer.take(pre.len() as int) =~= pre);
    assert(answer.skip(answer.len() - post.len()) =~= post);
    assert(answer.subrange(pre.len() as int, answer.len() - post.len()) =~= w);
    assert(value_text(v, answer) == Some(w));
    assert(leading_blanks(w) == 0);
    assert(trailing_blanks(w) == 0);
    assert(trimmed(w) =~= w);
    lemma_model_bool_reads_word(w, b);
}

/// The command for node `i` introduces the very name by which the other
/// commands refer to node `i` (`term_ref`), with the sort of the node's
/// width: a constant is declared, any other node is defined as its term.
pub proof fn lemma_command_names_node(nodes: Seq<Node>, i: int)
    requires
        0 <= i < nodes.len(),
    ensures
        nodes[i] is Const ==> node_command(nodes, i) == "(declare-const "@ + term_ref(nodes, i) + " "@ + sort_text(
            node_width(nodes, i),
        ) + ")"@,
        !(nodes[i] is Const) ==> node_command(nodes, i) == "(define-fun "@ + term_ref(nodes, i) + " () "@ + sort_text(
            node_width(nodes, i),
        ) + " "@ + node_body(nodes, i) + ")"@,
{
    reveal_strlit("(define-fun t");
    reveal_strlit("(define-fun ");
    reveal_strlit("t");
    if !(nodes[i] is Const) {
        assert(node_command(nodes, i) =~= "(define-fun "@ + term_ref(nodes, i) + " () "@ + sort_text(node_width(nodes, i)) + " "@
            + node_body(nodes, i) + ")"@);
    }
}

} // verus!
