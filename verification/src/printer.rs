//! The bracketed text form of a tree.
use vstd::prelude::*;
use vstd::string::*;
use crate::tree_lib::node::NodeOption;
use crate::tree_lib::tree::BTree;

verus! {

/// The character for a decimal digit.
pub open spec fn digit_char(d: int) -> char {
    if d == 0 {
        '0'
    } else if d == 1 {
        '1'
    } else if d == 2 {
        '2'
    } else if d == 3 {
        '3'
    } else if d == 4 {
        '4'
    } else if d == 5 {
        '5'
    } else if d == 6 {
        '6'
    } else if d == 7 {
        '7'
    } else if d == 8 {
        '8'
    } else {
        '9'
    }
}

/// The decimal digits of a natural number, most significant first, without
/// leading zeros.
pub open spec fn decimal_digits(n: nat) -> Seq<char>
    decreases n,
{
    if n < 10 {
        seq![digit_char(n as int)]
    } else {
        decimal_digits(n / 10).push(digit_char((n % 10) as int))
    }
}

/// The decimal form of an integer: a minus sign in front of a negative one,
/// no sign otherwise.
pub open spec fn decimal(v: int) -> Seq<char> {
    if v < 0 {
        seq!['-'] + decimal_digits((-v) as nat)
    } else {
        decimal_digits(v as nat)
    }
}

/// The text that stands for a slot with no node in it.
pub open spec fn no_node_text() -> Seq<char> {
    "No node found!\n"@
}

/// The text of a subtree. A leaf is its score in decimal. An inner node is
/// an opening bracket, its children that are there, with a comma between
/// them when both are, and a closing bracket.
pub open spec fn rendered_node(node: NodeOption) -> Seq<char>
    decreases node,
{
    match node {
        None => no_node_text(),
        Some(n) => if n.leaf() {
            decimal(n.val as int)
        } else {
            let left = if n.left is Some {
                rendered_node(n.left)
            } else {
                Seq::empty()
            };
            let comma = if n.left is Some && n.right is Some {
                seq![',']
            } else {
                Seq::empty()
            };
            let right = if n.right is Some {
                rendered_node(n.right)
            } else {
                Seq::empty()
            };
            seq!['['] + left + comma + right + seq![']']
        },
    }
}

/// The text of a whole tree, ending in a line break. A root with both
/// children is shown as a subtree. Any other root is shown as its stored
/// score alone, in brackets and on a line of its own; a tree without a root
/// says so.
pub open spec fn rendered_tree(tree: BTree) -> Seq<char> {
    match tree.root {
        None => "No value in root\n"@ + seq!['\n'],
        Some(n) => if n.left is Some && n.right is Some {
            rendered_node(tree.root) + seq!['\n']
        } else {
            seq!['['] + decimal(n.val as int) + seq![']', '\n', '\n']
        },
    }
}

fn digit_text(d: u64) -> (text: &'static str)
    requires
        d < 10,
    ensures
        text@ == seq![digit_char(d as int)],
{
    proof {
        reveal_strlit("0");
        reveal_strlit("1");
        reveal_strlit("2");
        reveal_strlit("3");
        reveal_strlit("4");
        reveal_strlit("5");
        reveal_strlit("6");
        reveal_strlit("7");
        reveal_strlit("8");
        reveal_strlit("9");
    }
    if d == 0 {
        "0"
    } else if d == 1 {
        "1"
    } else if d == 2 {
        "2"
    } else if d == 3 {
        "3"
    } else if d == 4 {
        "4"
    } else if d == 5 {
        "5"
    } else if d == 6 {
        "6"
    } else if d == 7 {
        "7"
    } else if d == 8 {
        "8"
    } else {
        "9"
    }
}

fn write_digits(out: &mut String, n: u64)
    ensures
        final(out)@ == old(out)@ + decimal_digits(n as nat),
    decreases n,
{
    if n >= 10 {
        write_digits(out, n / 10);
    }
    out.append(digit_text(n % 10));
}

fn write_decimal(out: &mut String, v: i32)
    ensures
        final(out)@ == old(out)@ + decimal(v as int),
{
    let wide: i64 = v as i64;
    if wide < 0 {
        proof {
            reveal_strlit("-");
        }
        out.append("-");
        write_digits(out, (0 - wide) as u64);
    } else {
        write_digits(out, wide as u64);
    }
}

fn write_node(out: &mut String, node: &NodeOption)
    ensures
        final(out)@ == old(out)@ + rendered_node(*node),
    decreases *node,
{
    proof {
        reveal_strlit("No node found!\n");
        reveal_strlit("[");
        reveal_strlit(",");
        reveal_strlit("]");
    }
    match node {
        None => out.append("No node found!\n"),
        Some(n) => if n.is_left_none() && n.is_right_none() {
            write_decimal(out, n.get_val());
        } else {
            out.append("[");
            if !n.is_left_none() {
                write_node(out, &n.left);
            }
            if !n.is_left_none() && !n.is_right_none() {
                out.append(",");
            }
            if !n.is_right_none() {
                write_node(out, &n.right);
            }
            out.append("]");
        },
    }
}

/// Renders the subtree in `node` as text.
pub fn render_node(node: &NodeOption) -> (text: String)
    ensures
        text@ == rendered_node(*node),
{
    let mut out = String::new();
    write_node(&mut out, node);
    out
}

/// Renders a whole tree as text, line break included.
pub fn render_tree(tree: &BTree) -> (text: String)
    ensures
        text@ == rendered_tree(*tree),
{
    proof {
        reveal_strlit("No value in root\n");
        reveal_strlit("[");
        reveal_strlit("]\n");
        reveal_strlit("\n");
    }
    let mut out = String::new();
    if !tree.is_left_none() && !tree.is_right_none() {
        write_node(&mut out, &tree.root);
    } else {
        match tree.get_root_val() {
            None => out.append("No value in root\n"),
            Some(val) => {
                out.append("[");
                write_decimal(&mut out, val);
                out.append("]\n");
            },
        }
    }
    out.append("\n");
    out
}

} // verus!
