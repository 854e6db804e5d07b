//! Verified core of a self-hosted service dashboard: service records, link
//! validation, favicon discovery, quick search ranking and page layout.

pub mod text;
pub mod service;
pub mod search;
pub mod weburl;
pub mod html;
pub mod logo;
pub mod encoding;
pub mod index;
pub mod page;
