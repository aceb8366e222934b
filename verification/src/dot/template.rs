//! The label of a node with its ports.

use vstd::prelude::*;
use crate::data_flow::node::Compound;
use crate::dot::description::Description;
use crate::dot::text::{decimal, write_decimal};

verus! {

/// The kind of a compound, as the group of its cluster.
#[derive(Clone, Copy)]
pub enum Group {
    Gamma,
    Theta,
    Lambda,
    Phi,
}

impl Group {
    /// The fill colour of the group.
    pub open spec fn color_text(self) -> Seq<char> {
        match self {
            Group::Gamma => "#a1fc8f"@,
            Group::Theta => "#eb8582"@,
            Group::Lambda => "#8bb2f9"@,
            Group::Phi => "#ecb084"@,
        }
    }

    /// The name of the group.
    pub open spec fn label_text(self) -> Seq<char> {
        match self {
            Group::Gamma => "Gamma"@,
            Group::Theta => "Theta"@,
            Group::Lambda => "Lambda"@,
            Group::Phi => "Phi"@,
        }
    }

    /// The two attribute lines of the group: its fill colour and its name.
    pub open spec fn text(self) -> Seq<char> {
        "fillcolor = \""@ + self.color_text() + "\";\n"@ + "label = \""@ + self.label_text()
            + "\";\n"@
    }

    /// The group of the compound.
    pub open spec fn of(compound: Compound) -> Group {
        match compound {
            Compound::Gamma { .. } => Group::Gamma,
            Compound::Theta { .. } => Group::Theta,
            Compound::Lambda { .. } => Group::Lambda,
            Compound::Phi { .. } => Group::Phi,
        }
    }

    fn color(self) -> (text: &'static str)
        ensures
            text@ == self.color_text(),
    {
        match self {
            Group::Gamma => "#a1fc8f",
            Group::Theta => "#eb8582",
            Group::Lambda => "#8bb2f9",
            Group::Phi => "#ecb084",
        }
    }

    fn label(self) -> (text: &'static str)
        ensures
            text@ == self.label_text(),
    {
        match self {
            Group::Gamma => "Gamma",
            Group::Theta => "Theta",
            Group::Lambda => "Lambda",
            Group::Phi => "Phi",
        }
    }

    /// Writes the fill colour and the name of the group, each as a line.
    pub fn write(self, w: &mut String)
        ensures
            final(w)@ == old(w)@ + self.text(),
    {
        w.append("fillcolor = \"");
        w.append(self.color());
        w.append("\";\n");
        w.append("label = \"");
        w.append(self.label());
        w.append("\";\n");
        assert(w@ =~= old(w)@ + self.text());
    }

    /// Returns the group of the compound.
    pub fn from_compound(value: &Compound) -> (group: Self)
        ensures
            group == Group::of(*value),
    {
        match value {
            Compound::Gamma { .. } => Group::Gamma,
            Compound::Theta { .. } => Group::Theta,
            Compound::Lambda { .. } => Group::Lambda,
            Compound::Phi { .. } => Group::Phi,
        }
    }
}

/// The side of a node at which a link is anchored.
#[derive(Clone, Copy)]
pub enum Anchor {
    In,
    Out,
}

impl Anchor {
    /// The name of the side.
    pub open spec fn side_text(self) -> Seq<char> {
        match self {
            Anchor::In => "in"@,
            Anchor::Out => "out"@,
        }
    }

    /// The compass point of the side.
    pub open spec fn direction_text(self) -> Seq<char> {
        match self {
            Anchor::In => "n"@,
            Anchor::Out => "s"@,
        }
    }

    /// The name of port `port` of the node on this side.
    pub open spec fn port_text<T: Description>(self, node: &T, port: usize) -> Seq<char> {
        match self {
            Anchor::In => node.port_in(port),
            Anchor::Out => node.port_out(port),
        }
    }

    /// The cell of port `port` of the node on this side.
    pub open spec fn cell<T: Description>(self, node: &T, port: usize) -> Seq<char> {
        "<TD PORT=\""@ + self.side_text() + decimal(port as nat) + "\">"@ + self.port_text(
            node,
            port,
        ) + "</TD>"@
    }

    /// The cells of the first `len` ports of the node on this side.
    pub open spec fn cells<T: Description>(self, node: &T, len: usize) -> Seq<char>
        decreases len,
    {
        if len == 0 {
            Seq::empty()
        } else {
            self.cells(node, (len - 1) as usize) + self.cell(node, (len - 1) as usize)
        }
    }

    /// The row of a label that lists the first `len` ports of the node on
    /// this side.
    pub open spec fn list<T: Description>(self, node: &T, len: usize) -> Seq<char> {
        "<TR><TD><TABLE CELLSPACING=\"0\"><TR>"@ + self.cells(node, len)
            + "</TR></TABLE></TD></TR>"@
    }

    /// The end of a link at port `port` of the node named `id` on this side.
    pub open spec fn link_text(self, id: Seq<char>, port: u16) -> Seq<char> {
        id + ":"@ + self.side_text() + decimal(port as nat) + ":"@ + self.direction_text()
    }

    /// Returns the name of the side.
    pub fn side(self) -> (text: &'static str)
        ensures
            text@ == self.side_text(),
    {
        match self {
            Anchor::In => "in",
            Anchor::Out => "out",
        }
    }

    /// Returns the compass point of the side.
    pub fn direction(self) -> (text: &'static str)
        ensures
            text@ == self.direction_text(),
    {
        match self {
            Anchor::In => "n",
            Anchor::Out => "s",
        }
    }

    /// Writes the end of a link at port `port` of the node named `id` on
    /// this side.
    pub fn write(self, w: &mut String, id: &str, port: u16)
        ensures
            final(w)@ == old(w)@ + self.link_text(id@, port),
    {
        w.append(id);
        w.append(":");
        w.append(self.side());
        write_decimal(w, port as usize);
        w.append(":");
        w.append(self.direction());
        assert(w@ =~= old(w)@ + self.link_text(id@, port));
    }

    fn write_list<T: Description>(self, w: &mut String, len: usize, node: &T)
        ensures
            final(w)@ == old(w)@ + self.list(node, len),
    {
        w.append("<TR><TD><TABLE CELLSPACING=\"0\"><TR>");
        let ghost begun = w@;
        let mut i: usize = 0;
        while i < len
            invariant
                i <= len,
                w@ == begun + self.cells(node, i),
            decreases len - i,
        {
            let ghost before = w@;
            w.append("<TD PORT=\"");
            w.append(self.side());
            write_decimal(w, i);
            w.append("\">");
            match self {
                Anchor::In => node.write_port_in(w, i),
                Anchor::Out => node.write_port_out(w, i),
            }
            w.append("</TD>");
            proof {
                assert(w@ =~= before + self.cell(node, i));
                assert(begun + self.cells(node, i) + self.cell(node, i) =~= begun + (self.cells(
                    node,
                    i,
                ) + self.cell(node, i)));
            }
            i += 1;
        }
        w.append("</TR></TABLE></TD></TR>");
        assert(w@ =~= old(w)@ + self.list(node, len));
    }
}

/// How many ports a node shows on each side.
pub struct PortCounts {
    inward: usize,
    outward: usize,
}

impl Default for PortCounts {
    /// Counts for a node of which no port is known yet.
    fn default() -> (counts: Self)
        ensures
            counts.inward() == 0,
            counts.outward() == 0,
    {
        Self::new()
    }
}

impl PortCounts {
    /// The number of ports shown on the input side.
    pub closed spec fn inward(&self) -> usize {
        self.inward
    }

    /// The number of ports shown on the output side.
    pub closed spec fn outward(&self) -> usize {
        self.outward
    }

    /// Whether the label lists ports: on some side there are two or more.
    pub open spec fn has_table(&self) -> bool {
        self.inward() > 1 || self.outward() > 1
    }

    /// What stands before the content in a label that lists ports.
    pub open spec fn pre_table<T: Description>(&self, node: &T) -> Seq<char> {
        "<TABLE BORDER=\"0\" CELLPADDING=\"0\" CELLSPACING=\"0\">"@ + (if self.inward() > 1 {
            Anchor::In.list(node, self.inward())
        } else {
            Seq::empty()
        }) + "<TR><TD>"@
    }

    /// What stands behind the content in a label that lists ports.
    pub open spec fn post_table<T: Description>(&self, node: &T) -> Seq<char> {
        "</TD></TR>"@ + (if self.outward() > 1 {
            Anchor::Out.list(node, self.outward())
        } else {
            Seq::empty()
        }) + "</TABLE>"@
    }

    /// The label attribute of the node: its content in a table, and around
    /// it the lists of its ports where a side has two or more.
    pub open spec fn text<T: Description>(&self, node: &T) -> Seq<char> {
        "[label = <"@ + (if self.has_table() {
            self.pre_table(node)
        } else {
            Seq::empty()
        }) + "<TABLE CELLSPACING=\"0\">"@ + node.content() + "</TABLE>"@ + (if self.has_table() {
            self.post_table(node)
        } else {
            Seq::empty()
        }) + ">];\n"@
    }

    /// Counts for a node of which no port is known yet.
    pub fn new() -> (counts: Self)
        ensures
            counts.inward() == 0,
            counts.outward() == 0,
    {
        Self { inward: 0, outward: 0 }
    }

    /// Raises the number of ports on the input side to `inward`, if it is
    /// lower.
    pub fn set_inward(&mut self, inward: usize)
        ensures
            final(self).inward() == if old(self).inward() < inward {
                inward
            } else {
                old(self).inward()
            },
            final(self).outward() == old(self).outward(),
    {
        if self.inward < inward {
            self.inward = inward;
        }
    }

    /// Raises the number of ports on the output side to `outward`, if it is
    /// lower.
    pub fn set_outward(&mut self, outward: usize)
        ensures
            final(self).outward() == if old(self).outward() < outward {
                outward
            } else {
                old(self).outward()
            },
            final(self).inward() == old(self).inward(),
    {
        if self.outward < outward {
            self.outward = outward;
        }
    }

    fn write_pre_table<T: Description>(&self, w: &mut String, node: &T)
        ensures
            final(w)@ == old(w)@ + self.pre_table(node),
    {
        w.append("<TABLE BORDER=\"0\" CELLPADDING=\"0\" CELLSPACING=\"0\">");
        if self.inward > 1 {
            Anchor::In.write_list(w, self.inward, node);
        }
        w.append("<TR><TD>");
        assert(w@ =~= old(w)@ + self.pre_table(node));
    }

    fn write_post_table<T: Description>(&self, w: &mut String, node: &T)
        ensures
            final(w)@ == old(w)@ + self.post_table(node),
    {
        w.append("</TD></TR>");
        if self.outward > 1 {
            Anchor::Out.write_list(w, self.outward, node);
        }
        w.append("</TABLE>");
        assert(w@ =~= old(w)@ + self.post_table(node));
    }

    /// Writes the label attribute of the node.
    pub fn write<T: Description>(&self, w: &mut String, node: &T)
        ensures
            final(w)@ == old(w)@ + self.text(node),
    {
        let has_table = self.inward > 1 || self.outward > 1;
        w.append("[label = <");
        if has_table {
            self.write_pre_table(w, node);
        }
        w.append("<TABLE CELLSPACING=\"0\">");
        node.write_content(w);
        w.append("</TABLE>");
        if has_table {
            self.write_post_table(w, node);
        }
        w.append(">];\n");
        assert(w@ =~= old(w)@ + self.text(node));
    }
}

} // verus!
