//! The core of a TLS-intercepting forward proxy for a package-mirror
//! network: the certificate-authority lifecycle, the longest-prefix-match
//! view router, the per-exchange interception decisions, and the XML tree
//! used to rewrite metalink mirror lists.

pub mod ca;
pub mod config;
pub mod metalink;
pub mod prefix_match;
pub mod proxy;
pub mod request_meta;
pub mod xml_tree;
