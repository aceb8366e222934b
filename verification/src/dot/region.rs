//! The cluster that stands for a region or a compound.

use vstd::prelude::*;

verus! {

/// What a cluster stands for.
#[derive(Clone, Copy)]
pub enum Named {
    Gamma,
    Theta,
    Lambda,
    Phi,
    Then,
    Reachable,
    NotReachable,
}

impl Named {
    /// The fill colour of the cluster.
    pub open spec fn color_text(self) -> Seq<char> {
        match self {
            Named::Gamma => "#8b81e8"@,
            Named::Theta => "#bb84ca"@,
            Named::Lambda => "#dde881"@,
            Named::Phi => "#e6b79a"@,
            Named::Then => "#89b7d7"@,
            Named::Reachable => "#81e8bf"@,
            Named::NotReachable => "#e881aa"@,
        }
    }

    /// The name of the cluster.
    pub open spec fn label_text(self) -> Seq<char> {
        match self {
            Named::Gamma => "Gamma"@,
            Named::Theta => "Theta"@,
            Named::Lambda => "Lambda"@,
            Named::Phi => "Phi"@,
            Named::Then => "Then"@,
            Named::Reachable => "Reachable"@,
            Named::NotReachable => "Not Reachable"@,
        }
    }

    /// The cluster named after `id` around the statements `nested`: its
    /// opening line, its fill colour, its name, the statements, and the
    /// closing line.
    pub open spec fn text(self, id: Seq<char>, nested: Seq<char>) -> Seq<char> {
        "subgraph cluster_"@ + id + " {\n"@ + "fillcolor = \""@ + self.color_text() + "\";\n"@
            + "label = \""@ + self.label_text() + "\";\n"@ + nested + "}\n"@
    }

    fn color(self) -> (text: &'static str)
        ensures
            text@ == self.color_text(),
    {
        match self {
            Named::Gamma => "#8b81e8",
            Named::Theta => "#bb84ca",
            Named::Lambda => "#dde881",
            Named::Phi => "#e6b79a",
            Named::Then => "#89b7d7",
            Named::Reachable => "#81e8bf",
            Named::NotReachable => "#e881aa",
        }
    }

    fn label(self) -> (text: &'static str)
        ensures
            text@ == self.label_text(),
    {
        match self {
            Named::Gamma => "Gamma",
            Named::Theta => "Theta",
            Named::Lambda => "Lambda",
            Named::Phi => "Phi",
            Named::Then => "Then",
            Named::Reachable => "Reachable",
            Named::NotReachable => "Not Reachable",
        }
    }

    /// Writes the cluster named after `id` around the statements `nested`.
    pub fn write(self, w: &mut String, id: &str, nested: &str)
        ensures
            final(w)@ == old(w)@ + self.text(id@, nested@),
    {
        w.append("subgraph cluster_");
        w.append(id);
        w.append(" {\n");
        w.append("fillcolor = \"");
        w.append(self.color());
        w.append("\";\n");
        w.append("label = \"");
        w.append(self.label());
        w.append("\";\n");
        w.append(nested);
        w.append("}\n");
        assert(w@ =~= old(w)@ + self.text(id@, nested@));
    }
}

/// A cluster with a label of its own in place of its name.
pub struct Labeled<L> {
    typ: Named,
    label: L,
}

impl<L> Labeled<L> {
    /// What the cluster stands for.
    pub closed spec fn typ(&self) -> Named {
        self.typ
    }

    /// The label of the cluster.
    pub closed spec fn label(&self) -> L {
        self.label
    }

    /// Creates a cluster of the given kind with the given label.
    pub fn new(typ: Named, label: L) -> (labeled: Self)
        ensures
            labeled.typ() == typ,
            labeled.label() == label,
    {
        Self { typ, label }
    }
}

impl Labeled<String> {
    /// The cluster named after `id` around the statements `nested`, with a
    /// second label line that overrides the name.
    pub open spec fn text(&self, id: Seq<char>, nested: Seq<char>) -> Seq<char> {
        self.typ().text(id, "label = \""@ + self.label()@ + "\";\n"@ + nested)
    }

    /// Writes the cluster named after `id` around the statements `nested`.
    pub fn write(&self, w: &mut String, id: &str, nested: &str)
        ensures
            final(w)@ == old(w)@ + self.text(id@, nested@),
    {
        let mut inner = String::new();
        inner.append("label = \"");
        inner.append(self.label.as_str());
        inner.append("\";\n");
        inner.append(nested);
        assert(inner@ =~= "label = \""@ + self.label()@ + "\";\n"@ + nested@);
        self.typ.write(w, id, inner.as_str());
    }
}

} // verus!
