//! A content-injection engine for HTML documents: an arena tree that an HTML
//! tree builder fills, a traversal that grafts a fragment under a named
//! element, and a textual pass that expands directive comments.
pub mod dom;
pub mod inject;
pub mod placeholder;
pub mod seqs;
