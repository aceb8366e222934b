//! The label of a node with its ports.

use vstd::prelude::*;
use crate::dot::description::Description;
use crate::dot::text::{decimal, write_decimal};

verus! {

/// How many ports a node shows on each side.
#[derive(Clone, Copy)]
pub struct Ports {
    input: u16,
    output: u16,
}

/// The name of port `port` of the node on the input side, or on the output
/// side.
pub open spec fn port_name<T: Description>(node: &T, inward: bool, port: usize) -> Seq<char> {
    if inward {
        node.port_in(port)
    } else {
        node.port_out(port)
    }
}

/// The letter under which the ports of a side are anchored.
pub open spec fn side_letter(inward: bool) -> Seq<char> {
    if inward {
        "I"@
    } else {
        "O"@
    }
}

/// The cell of port `port` of the node on a side.
pub open spec fn port_cell<T: Description>(node: &T, inward: bool, port: usize) -> Seq<char> {
    "<TD PORT=\""@ + side_letter(inward) + decimal(port as nat) + "\">"@ + port_name(
        node,
        inward,
        port,
    ) + "</TD>"@
}

/// The cells of the first `len` ports of the node on a side.
pub open spec fn port_cells<T: Description>(node: &T, inward: bool, len: usize) -> Seq<char>
    decreases len,
{
    if len == 0 {
        Seq::empty()
    } else {
        port_cells(node, inward, (len - 1) as usize) + port_cell(node, inward, (len - 1) as usize)
    }
}

/// The row of a label that lists the first `len` ports of the node on a
/// side.
pub open spec fn port_list<T: Description>(node: &T, inward: bool, len: usize) -> Seq<char> {
    "<TR><TD><TABLE CELLSPACING=\"0\"><TR>"@ + port_cells(node, inward, len)
        + "</TR></TABLE></TD></TR>"@
}

/// What stands before the content in a label that lists ports.
pub open spec fn input_ports<T: Description>(node: &T, input: u16) -> Seq<char> {
    "<TABLE BORDER=\"0\" CELLPADDING=\"0\" CELLSPACING=\"0\">"@ + (if input > 1 {
        port_list(node, true, input as usize)
    } else {
        Seq::empty()
    }) + "<TR><TD>"@
}

/// What stands behind the content in a label that lists ports.
pub open spec fn output_ports<T: Description>(node: &T, output: u16) -> Seq<char> {
    "</TD></TR>"@ + (if output > 1 {
        port_list(node, false, output as usize)
    } else {
        Seq::empty()
    }) + "</TABLE>"@
}

/// The label attribute of the node: its content in a table, and around it
/// the lists of its ports where a side has two or more.
pub open spec fn contents<T: Description>(node: &T, ports: Ports) -> Seq<char> {
    "[label = <"@ + (if ports.has_both_multiple() {
        input_ports(node, ports.input())
    } else {
        Seq::empty()
    }) + "<TABLE CELLSPACING=\"0\">"@ + node.content() + "</TABLE>"@ + (
    if ports.has_both_multiple() {
        output_ports(node, ports.output())
    } else {
        Seq::empty()
    }) + ">];\n"@
}

impl Ports {
    /// The number of ports shown on the input side.
    pub closed spec fn input(self) -> u16 {
        self.input
    }

    /// The number of ports shown on the output side.
    pub closed spec fn output(self) -> u16 {
        self.output
    }

    /// Whether the label lists ports: on some side there are two or more.
    pub open spec fn has_both_multiple(self) -> bool {
        self.input() > 1 || self.output() > 1
    }

    /// Creates the counts of a node with the given numbers of ports.
    pub fn new(input: u16, output: u16) -> (ports: Self)
        ensures
            ports.input() == input,
            ports.output() == output,
    {
        Self { input, output }
    }

    /// Sets the number of ports on the input side.
    pub fn set_input(&mut self, inputs: usize)
        requires
            inputs <= u16::MAX,
        ensures
            final(self).input() == inputs,
            final(self).output() == old(self).output(),
    {
        self.input = inputs as u16;
    }

    /// Notes that output port `outputs` is read: the number of ports on the
    /// output side is raised to one more, if it is lower.
    pub fn set_output(&mut self, outputs: u16)
        requires
            outputs < u16::MAX,
        ensures
            final(self).output() == if old(self).output() < outputs + 1 {
                (outputs + 1) as u16
            } else {
                old(self).output()
            },
            final(self).input() == old(self).input(),
    {
        if self.output < outputs + 1 {
            self.output = outputs + 1;
        }
    }
}

fn write_port_list<T: Description>(write: &mut String, len: usize, inward: bool, node: &T)
    ensures
        final(write)@ == old(write)@ + port_list(node, inward, len),
{
    write.append("<TR><TD><TABLE CELLSPACING=\"0\"><TR>");
    let ghost begun = write@;
    let mut index: usize = 0;
    while index < len
        invariant
            index <= len,
            write@ == begun + port_cells(node, inward, index),
        decreases len - index,
    {
        let ghost before = write@;
        write.append("<TD PORT=\"");
        if inward {
            write.append("I");
        } else {
            write.append("O");
        }
        write_decimal(write, index);
        write.append("\">");
        if inward {
            node.write_port_in(write, index);
        } else {
            node.write_port_out(write, index);
        }
        write.append("</TD>");
        proof {
            assert(write@ =~= before + port_cell(node, inward, index));
            assert(begun + port_cells(node, inward, index) + port_cell(node, inward, index)
                =~= begun + (port_cells(node, inward, index) + port_cell(node, inward, index)));
        }
        index += 1;
    }
    write.append("</TR></TABLE></TD></TR>");
    assert(write@ =~= old(write)@ + port_list(node, inward, len));
}

fn write_input_ports<T: Description>(write: &mut String, node: &T, input: u16)
    ensures
        final(write)@ == old(write)@ + input_ports(node, input),
{
    write.append("<TABLE BORDER=\"0\" CELLPADDING=\"0\" CELLSPACING=\"0\">");
    if input > 1 {
        write_port_list(write, input as usize, true, node);
    }
    write.append("<TR><TD>");
    assert(write@ =~= old(write)@ + input_ports(node, input));
}

fn write_output_ports<T: Description>(write: &mut String, node: &T, output: u16)
    ensures
        final(write)@ == old(write)@ + output_ports(node, output),
{
    write.append("</TD></TR>");
    if output > 1 {
        write_port_list(write, output as usize, false, node);
    }
    write.append("</TABLE>");
    assert(write@ =~= old(write)@ + output_ports(node, output));
}

/// Writes the label attribute of the node.
pub fn write_contents<T: Description>(write: &mut String, node: &T, ports: Ports)
    ensures
        final(write)@ == old(write)@ + contents(node, ports),
{
    let both = ports.input > 1 || ports.output > 1;
    write.append("[label = <");
    if both {
        write_input_ports(write, node, ports.input);
    }
    write.append("<TABLE CELLSPACING=\"0\">");
    node.write_content(write);
    write.append("</TABLE>");
    if both {
        write_output_ports(write, node, ports.output);
    }
    write.append(">];\n");
    assert(write@ =~= old(write)@ + contents(node, ports));
}

} // verus!
