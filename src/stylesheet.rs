//! The stylesheet model.
use vstd::prelude::*;

verus! {

/// One whitespace-separated token of a selector, such as `div.card#x`.
#[derive(Debug, Clone)]
pub struct SimpleSelector {
    pub tag: Option<String>,
    pub id: Option<String>,
    pub classes: Vec<String>,
}

/// A descendant chain; the last part is the subject element.
#[derive(Debug, Clone)]
pub struct CssSelector {
    pub parts: Vec<SimpleSelector>,
}

#[derive(Debug, Clone)]
pub struct CssDeclaration {
    pub property: String,
    pub value: String,
}

/// Alternative selectors sharing one declaration list, tagged with the rule's
/// position in the sheet.
#[derive(Debug, Clone)]
pub struct CssRule {
    pub selectors: Vec<CssSelector>,
    pub declarations: Vec<CssDeclaration>,
    pub source_order: usize,
}

#[derive(Debug, Clone)]
pub struct EngineStyleSheet {
    pub rules: Vec<CssRule>,
}

impl EngineStyleSheet {
    /// Each rule is tagged with its own position.
    pub open spec fn ordered(&self) -> bool {
        forall|i: int| 0 <= i < self.rules@.len() ==> #[trigger] self.rules@[i].source_order == i
    }
}

} // verus!
