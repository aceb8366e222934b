//! The table that stands for a node, with a row of ports above and below.

use vstd::prelude::*;
use crate::dot::text::{decimal, write_decimal};

verus! {

/// The side of a node that a link meets.
#[derive(Clone, Copy)]
pub enum Face {
    Incoming,
    Outgoing,
}

impl Face {
    /// The compass point of the side.
    pub open spec fn direction_text(self) -> Seq<char> {
        match self {
            Face::Incoming => "n"@,
            Face::Outgoing => "s"@,
        }
    }

    /// The name of the side.
    pub open spec fn name_text(self) -> Seq<char> {
        match self {
            Face::Incoming => "in"@,
            Face::Outgoing => "out"@,
        }
    }

    /// Returns the compass point of the side.
    pub fn direction(self) -> (text: &'static str)
        ensures
            text@ == self.direction_text(),
    {
        match self {
            Face::Incoming => "n",
            Face::Outgoing => "s",
        }
    }

    /// Returns the name of the side.
    pub fn name(self) -> (text: &'static str)
        ensures
            text@ == self.name_text(),
    {
        match self {
            Face::Incoming => "in",
            Face::Outgoing => "out",
        }
    }
}

/// The cell of port `port` on the side: it is anchored under the name of
/// the side and the number of the port, and shows the number counted from
/// one.
pub open spec fn port_cell(face: Face, port: nat) -> Seq<char> {
    "<TD PORT=\""@ + face.name_text() + decimal(port) + "\">"@ + decimal(port + 1) + "</TD>"@
}

/// The cells of the first `len` ports on the side.
pub open spec fn port_cells(face: Face, len: nat) -> Seq<char>
    decreases len,
{
    if len == 0 {
        Seq::empty()
    } else {
        port_cells(face, (len - 1) as nat) + port_cell(face, (len - 1) as nat)
    }
}

/// The row of ports on the side, or nothing if there are fewer than two.
pub open spec fn port_row(face: Face, len: nat) -> Seq<char> {
    if len > 1 {
        "<TR>"@ + port_cells(face, len) + "</TR>"@
    } else {
        Seq::empty()
    }
}

/// The ports of one side of a node, where there are two or more.
struct Ports {
    face: Face,
    len: usize,
}

impl Ports {
    fn new(face: Face, len: usize) -> (ports: Option<Self>)
        ensures
            ports is Some <==> len > 1,
            ports is Some ==> ports->0.face == face && ports->0.len == len,
    {
        if len > 1 {
            Some(Self { face, len })
        } else {
            None
        }
    }

    fn fmt(&self, f: &mut String)
        requires
            self.len > 1,
        ensures
            final(f)@ == old(f)@ + port_row(self.face, self.len as nat),
    {
        f.append("<TR>");
        let ghost begun = f@;
        let mut i: usize = 0;
        while i < self.len
            invariant
                i <= self.len,
                f@ == begun + port_cells(self.face, i as nat),
            decreases self.len - i,
        {
            let ghost before = f@;
            f.append("<TD PORT=\"");
            f.append(self.face.name());
            write_decimal(f, i);
            f.append("\">");
            write_decimal(f, i + 1);
            f.append("</TD>");
            proof {
                assert(f@ =~= before + port_cell(self.face, i as nat));
                assert(begun + port_cells(self.face, i as nat) + port_cell(self.face, i as nat)
                    =~= begun + (port_cells(self.face, i as nat) + port_cell(
                    self.face,
                    i as nat,
                )));
            }
            i += 1;
        }
        f.append("</TR>");
        assert(f@ =~= old(f)@ + port_row(self.face, self.len as nat));
    }
}

/// How many ports a node has on each side.
pub struct Information {
    incoming: usize,
    outgoing: usize,
}

impl Default for Information {
    /// Information on a node of which no port is known yet.
    fn default() -> (information: Self)
        ensures
            information.incoming() == 0,
            information.outgoing() == 0,
    {
        Self::new()
    }
}

impl Information {
    /// The number of ports on the incoming side.
    pub closed spec fn incoming(&self) -> usize {
        self.incoming
    }

    /// The number of ports on the outgoing side.
    pub closed spec fn outgoing(&self) -> usize {
        self.outgoing
    }

    /// The number of columns of the table: that of the ports on the wider
    /// side, and at least one.
    pub open spec fn span(&self) -> usize {
        if self.incoming() >= self.outgoing() && self.incoming() >= 1 {
            self.incoming()
        } else if self.outgoing() >= 1 {
            self.outgoing()
        } else {
            1
        }
    }

    /// The statement that declares the node named `id` with the label
    /// `label`: a table with the incoming ports above the label and the
    /// outgoing ports below it, where a side has two or more.
    pub open spec fn text(&self, id: Seq<char>, label: Seq<char>) -> Seq<char> {
        id + " [label = <<TABLE CELLSPACING=\"0\">"@ + port_row(
            Face::Incoming,
            self.incoming() as nat,
        ) + "<TR><TD COLSPAN=\""@ + decimal(self.span() as nat) + "\">"@ + label + "</TD></TR>"@
            + port_row(Face::Outgoing, self.outgoing() as nat) + "</TABLE>>];\n"@
    }

    /// Information on a node of which no port is known yet.
    pub fn new() -> (information: Self)
        ensures
            information.incoming() == 0,
            information.outgoing() == 0,
    {
        Self { incoming: 0, outgoing: 0 }
    }

    /// Raises the number of incoming ports to `value`, if it is lower.
    pub fn set_incoming(&mut self, value: usize)
        ensures
            final(self).incoming() == if old(self).incoming() < value {
                value
            } else {
                old(self).incoming()
            },
            final(self).outgoing() == old(self).outgoing(),
    {
        if self.incoming < value {
            self.incoming = value;
        }
    }

    /// Raises the number of outgoing ports to `value`, if it is lower.
    pub fn set_outgoing(&mut self, value: usize)
        ensures
            final(self).outgoing() == if old(self).outgoing() < value {
                value
            } else {
                old(self).outgoing()
            },
            final(self).incoming() == old(self).incoming(),
    {
        if self.outgoing < value {
            self.outgoing = value;
        }
    }

    /// Writes the statement that declares the node named `id` with the
    /// label `label`.
    pub fn write(&self, w: &mut String, id: &str, label: &str)
        ensures
            final(w)@ == old(w)@ + self.text(id@, label@),
    {
        w.append(id);
        w.append(" [label = <<TABLE CELLSPACING=\"0\">");
        if let Some(ports) = Ports::new(Face::Incoming, self.incoming) {
            ports.fmt(w);
        }
        let mut span = self.incoming;
        if span < self.outgoing {
            span = self.outgoing;
        }
        if span < 1 {
            span = 1;
        }
        w.append("<TR><TD COLSPAN=\"");
        write_decimal(w, span);
        w.append("\">");
        w.append(label);
        w.append("</TD></TR>");
        if let Some(ports) = Ports::new(Face::Outgoing, self.outgoing) {
            ports.fmt(w);
        }
        w.append("</TABLE>>];\n");
        assert(w@ =~= old(w)@ + self.text(id@, label@));
    }
}

} // verus!
