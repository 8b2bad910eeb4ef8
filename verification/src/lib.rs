//! Templated expansion of a tree-shaped configuration document.
//!
//! A document is a tree of scalars, sequences and mappings. Mapping keys whose
//! text contains the tag `|expand` mark their value for placeholder
//! substitution: every `%name%` token found in a tagged string value is
//! replaced by each entry of the replacement list loaded for that name, turning
//! the single scalar into a sequence of scalars. The tag itself is stripped
//! from the key in the output.
//!
//! The replacement lists come from a directory of small text files, one per
//! placeholder name; building the replacement table from their lines is the
//! loader's task.

pub mod document;
pub mod expand;
pub mod loader;
pub mod text;
