//! A small style-and-layout engine: a stylesheet parser, a cascade resolver and a
//! block layout pass over an arena-indexed document tree, with the page, link and
//! history helpers of a text-mode browser around them.
pub mod text;
pub mod document;
pub mod stylesheet;
pub mod cascade;
pub mod layout;
pub mod parser;
pub mod navigation;
pub mod history;
pub mod web;

pub use document::{EngineDocument, EngineNode, get_attr};
pub use stylesheet::{CssDeclaration, CssRule, CssSelector, EngineStyleSheet, SimpleSelector};
pub use cascade::{cascaded_value, resolve_styles, node_matches_simple, selector_matches, selector_specificity};
pub use layout::{compute_layout, LayoutBox, LayoutTree};
pub use parser::{parse_css_stylesheet, parse_selector_text};
pub use navigation::{is_safe_navigation_target, normalize_url, wrap_text};
pub use history::ZephyrGuiApp;
pub use web::{
    extract_source_bundle, extract_style_blocks, extract_text_and_links, parse_url, render_page_text,
    resolve_url, HttpResponse, SourceBundle, UrlParts,
};
