//! The description of one XPath step.

use vstd::prelude::*;
use crate::nodes::NodeKind;

verus! {

#[derive(Debug, PartialEq, Eq, Clone, Copy, Structural)]
pub enum XPathAxis {
    Ancestor,
    AncestorOrSelf,
    Attribute,
    Child,
    Descendant,
    DescendantOrSelf,
    Following,
    FollowingSibling,
    Parent,
    Preceding,
    PrecedingSibling,
    SelfAxis,
}

/// One step: an axis, an optional kind test and an optional name test, the
/// latter as a pair of local name and namespace.
pub struct XPathStep {
    pub axis: XPathAxis,
    pub kind: Option<NodeKind>,
    pub name: (Option<String>, Option<String>),
}

/// Which kind tests go with which axis. The ancestor and the parent axis
/// reach documents and elements only; the attribute axis attributes only;
/// the child, descendant, following and preceding axes and those of the
/// siblings reach neither documents nor attributes.
pub open spec fn step_allowed(axis: XPathAxis, kind: Option<NodeKind>) -> bool {
    match axis {
        XPathAxis::Ancestor | XPathAxis::Parent => kind is None || kind == Some(NodeKind::Document)
            || kind == Some(NodeKind::Element),
        XPathAxis::Attribute => kind is None || kind == Some(NodeKind::Attribute),
        XPathAxis::Child
        | XPathAxis::Descendant
        | XPathAxis::Following
        | XPathAxis::FollowingSibling
        | XPathAxis::Preceding
        | XPathAxis::PrecedingSibling => kind != Some(NodeKind::Document) && kind != Some(
            NodeKind::Attribute,
        ),
        XPathAxis::AncestorOrSelf | XPathAxis::DescendantOrSelf | XPathAxis::SelfAxis => true,
    }
}

} // verus!
