#![allow(non_camel_case_types)]

pub mod domain;
pub mod extract;
pub mod http;
pub mod index;
pub mod pbf;
pub mod text;
