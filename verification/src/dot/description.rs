//! How a node describes itself on a label.

use vstd::prelude::*;
use crate::data_flow::node::{Compound, Marker, Node, Payload};
use crate::dot::text::{decimal, write_decimal};

verus! {

/// A trait for describing how a node should be written to a DOT file.
pub trait Description {
    /// The content of the node on the label.
    spec fn content(&self) -> Seq<char>;

    /// The name of the input port: by default its number, counted from one.
    open spec fn port_in(&self, port: usize) -> Seq<char> {
        decimal((port + 1) as nat)
    }

    /// The name of the output port: by default its number, counted from one.
    open spec fn port_out(&self, port: usize) -> Seq<char> {
        decimal((port + 1) as nat)
    }

    /// Write the content of the node onto the label.
    fn write_content(&self, writer: &mut String)
        ensures
            final(writer)@ == old(writer)@ + self.content(),
    ;

    /// Write the port name of the link to the node.
    fn write_port_in(&self, writer: &mut String, port: usize)
        requires
            port < usize::MAX,
        ensures
            final(writer)@ == old(writer)@ + self.port_in(port),
    ;

    /// Write the port name of the link from the node.
    fn write_port_out(&self, writer: &mut String, port: usize)
        requires
            port < usize::MAX,
        ensures
            final(writer)@ == old(writer)@ + self.port_out(port),
    ;
}

/// The row of a label that holds the given text.
pub open spec fn row(text: Seq<char>) -> Seq<char> {
    "<TR><TD>"@ + text + "</TD></TR>"@
}

/// The name of the marker.
pub open spec fn marker_name(marker: Marker) -> Seq<char> {
    match marker {
        Marker::Start => "Start"@,
        Marker::End { .. } => "End"@,
    }
}

/// The name of the compound.
pub open spec fn compound_name(compound: Compound) -> Seq<char> {
    match compound {
        Compound::Gamma { .. } => "Gamma"@,
        Compound::Theta { .. } => "Theta"@,
        Compound::Lambda { .. } => "Lambda"@,
        Compound::Phi { .. } => "Phi"@,
    }
}

/// Appends the row of a label that holds the given text.
fn write_row(writer: &mut String, text: &str)
    ensures
        final(writer)@ == old(writer)@ + row(text@),
{
    writer.append("<TR><TD>");
    writer.append(text);
    writer.append("</TD></TR>");
    assert(writer@ =~= old(writer)@ + row(text@));
}

impl Description for usize {
    /// A number describes itself by its decimal notation.
    open spec fn content(&self) -> Seq<char> {
        row(decimal(*self as nat))
    }

    fn write_content(&self, writer: &mut String) {
        writer.append("<TR><TD>");
        write_decimal(writer, *self);
        writer.append("</TD></TR>");
        assert(writer@ =~= old(writer)@ + self.content());
    }

    fn write_port_in(&self, writer: &mut String, port: usize) {
        write_decimal(writer, port + 1);
    }

    fn write_port_out(&self, writer: &mut String, port: usize) {
        write_decimal(writer, port + 1);
    }
}

impl<D: Description> Description for Payload<D> {
    /// A payload describes itself by its data.
    open spec fn content(&self) -> Seq<char> {
        self.data.content()
    }

    open spec fn port_in(&self, port: usize) -> Seq<char> {
        self.data.port_in(port)
    }

    open spec fn port_out(&self, port: usize) -> Seq<char> {
        self.data.port_out(port)
    }

    fn write_content(&self, writer: &mut String) {
        self.data.write_content(writer);
    }

    fn write_port_in(&self, writer: &mut String, port: usize) {
        self.data.write_port_in(writer, port);
    }

    fn write_port_out(&self, writer: &mut String, port: usize) {
        self.data.write_port_out(writer, port);
    }
}

impl Description for Marker {
    open spec fn content(&self) -> Seq<char> {
        row(marker_name(*self))
    }

    fn write_content(&self, writer: &mut String) {
        let name = match self {
            Marker::Start => "Start",
            Marker::End { .. } => "End",
        };
        write_row(writer, name);
    }

    fn write_port_in(&self, writer: &mut String, port: usize) {
        write_decimal(writer, port + 1);
    }

    fn write_port_out(&self, writer: &mut String, port: usize) {
        write_decimal(writer, port + 1);
    }
}

impl Description for Compound {
    open spec fn content(&self) -> Seq<char> {
        row(compound_name(*self))
    }

    fn write_content(&self, writer: &mut String) {
        let name = match self {
            Compound::Gamma { .. } => "Gamma",
            Compound::Theta { .. } => "Theta",
            Compound::Lambda { .. } => "Lambda",
            Compound::Phi { .. } => "Phi",
        };
        write_row(writer, name);
    }

    fn write_port_in(&self, writer: &mut String, port: usize) {
        write_decimal(writer, port + 1);
    }

    fn write_port_out(&self, writer: &mut String, port: usize) {
        write_decimal(writer, port + 1);
    }
}

impl<N: Description> Description for Node<N> {
    open spec fn content(&self) -> Seq<char> {
        match self {
            Node::Simple(simple) => simple.content(),
            Node::Marker(marker) => marker.content(),
            Node::Compound(compound) => compound.content(),
        }
    }

    open spec fn port_in(&self, port: usize) -> Seq<char> {
        match self {
            Node::Simple(simple) => simple.port_in(port),
            Node::Marker(marker) => marker.port_in(port),
            Node::Compound(compound) => compound.port_in(port),
        }
    }

    open spec fn port_out(&self, port: usize) -> Seq<char> {
        match self {
            Node::Simple(simple) => simple.port_out(port),
            Node::Marker(marker) => marker.port_out(port),
            Node::Compound(compound) => compound.port_out(port),
        }
    }

    fn write_content(&self, writer: &mut String) {
        match self {
            Node::Simple(simple) => simple.write_content(writer),
            Node::Marker(marker) => marker.write_content(writer),
            Node::Compound(compound) => compound.write_content(writer),
        }
    }

    fn write_port_in(&self, writer: &mut String, port: usize) {
        match self {
            Node::Simple(simple) => simple.write_port_in(writer, port),
            Node::Marker(marker) => marker.write_port_in(writer, port),
            Node::Compound(compound) => compound.write_port_in(writer, port),
        }
    }

    fn write_port_out(&self, writer: &mut String, port: usize) {
        match self {
            Node::Simple(simple) => simple.write_port_out(writer, port),
            Node::Marker(marker) => marker.write_port_out(writer, port),
            Node::Compound(compound) => compound.write_port_out(writer, port),
        }
    }
}

} // verus!
