//! Memory substrate for an autonomous agent: a brute-force similarity
//! index over embedded documents, and named state stores with three
//! storage disciplines (ordered list, tagged map, current/previous slot).

pub mod metrics;
pub mod rag;
pub mod storage;
