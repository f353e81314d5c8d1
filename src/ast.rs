use vstd::prelude::*;
use vstd::string::StringExecFns;

verus! {

/// A binary arithmetic operator.
#[derive(Debug, PartialEq, Eq, Clone, Copy, Structural)]
pub enum Operator {
    Add,
    Sub,
    Mul,
    Div,
}

/// An expression tree: a number, or an operator applied to two subtrees.
#[derive(Debug, PartialEq, Eq)]
pub enum Node {
    Leaf(usize),
    Binary(Operator, Box<Node>, Box<Node>),
}

/// The character of a decimal digit `d < 10`.
pub open spec fn digit_char(d: nat) -> char {
    seq!['0', '1', '2', '3', '4', '5', '6', '7', '8', '9'][d as int]
}

/// The base-10 text of `v`: its digits, most significant first, without
/// sign, padding or leading zeros.
pub open spec fn decimal(v: nat) -> Seq<char>
    decreases v,
{
    if v < 10 {
        seq![digit_char(v)]
    } else {
        decimal(v / 10).push(digit_char(v % 10))
    }
}

/// The name an operator is printed with.
pub open spec fn op_name(op: Operator) -> Seq<char> {
    match op {
        Operator::Add => seq!['A', 'd', 'd'],
        Operator::Sub => seq!['S', 'u', 'b'],
        Operator::Mul => seq!['M', 'u', 'l'],
        Operator::Div => seq!['D', 'i', 'v'],
    }
}

/// The pre-order text of a tree: `(<op><left><right>)` for an operator node,
/// where an operand that is a leaf is two spaces and its value; a lone leaf
/// prints as `(Number(<value>))`.
pub open spec fn rendering(n: Node) -> Seq<char>
    decreases n,
{
    match n {
        Node::Leaf(v) => seq!['(', 'N', 'u', 'm', 'b', 'e', 'r', '('] + decimal(v as nat) + seq![
            ')',
            ')',
        ],
        Node::Binary(op, l, r) => {
            let lt = match *l {
                Node::Leaf(v) => seq![' ', ' '] + decimal(v as nat),
                _ => rendering(*l),
            };
            let rt = match *r {
                Node::Leaf(v) => seq![' ', ' '] + decimal(v as nat),
                _ => rendering(*r),
            };
            seq!['('] + op_name(op) + lt + rt + seq![')']
        },
    }
}

/// Relies on `usize`'s `Display` impl, through `to_string`: the value in base 10.
#[verifier::external_body]
fn decimal_text(v: usize) -> (r: String)
    ensures
        r@ == decimal(v as nat),
{
    v.to_string()
}

fn op_text(op: Operator) -> (r: &'static str)
    ensures
        r@ == op_name(op),
{
    match op {
        Operator::Add => {
            proof {
                reveal_strlit("Add");
            }
            "Add"
        },
        Operator::Sub => {
            proof {
                reveal_strlit("Sub");
            }
            "Sub"
        },
        Operator::Mul => {
            proof {
                reveal_strlit("Mul");
            }
            "Mul"
        },
        Operator::Div => {
            proof {
                reveal_strlit("Div");
            }
            "Div"
        },
    }
}

impl Node {
    /// A leaf holding `value`.
    pub fn create_node(value: usize) -> (r: Node)
        ensures
            r == Node::Leaf(value),
    {
        Node::Leaf(value)
    }

    /// The node applying `op` to `left` and `right`, in that order.
    pub fn add_children(op: Operator, left: Node, right: Node) -> (r: Node)
        ensures
            r == Node::Binary(op, Box::new(left), Box::new(right)),
    {
        Node::Binary(op, Box::new(left), Box::new(right))
    }

    /// The text of this node as an operand of an operator node.
    fn operand_text(&self) -> (r: String)
        ensures
            r@ == (match *self {
                Node::Leaf(v) => seq![' ', ' '] + decimal(v as nat),
                _ => rendering(*self),
            }),
        decreases self, 1int,
    {
        match self {
            Node::Leaf(v) => {
                proof {
                    reveal_strlit("  ");
                }
                let mut s = String::from_str("  ");
                let d = decimal_text(*v);
                s.append(d.as_str());
                s
            },
            _ => self.render(),
        }
    }

    /// The pre-order text of the tree rooted here.
    pub fn render(&self) -> (r: String)
        ensures
            r@ == rendering(*self),
        decreases self, 0int,
    {
        match self {
            Node::Leaf(v) => {
                proof {
                    reveal_strlit("(Number(");
                    reveal_strlit("))");
                }
                let mut s = String::from_str("(Number(");
                let d = decimal_text(*v);
                s.append(d.as_str());
                s.append("))");
                s
            },
            Node::Binary(op, l, r) => {
                proof {
                    reveal_strlit("(");
                    reveal_strlit(")");
                }
                let mut s = String::from_str("(");
                s.append(op_text(*op));
                let lt = l.operand_text();
                s.append(lt.as_str());
                let rt = r.operand_text();
                s.append(rt.as_str());
                s.append(")");
                s
            },
        }
    }
}

} // verus!
