//! Two classic linked lists with insertion and deletion at both ends: a
//! singly linked list whose nodes each own their successor, and a doubly
//! linked list whose nodes live in an arena and link to each other by slot
//! index.

pub mod sequence;
pub mod singly;
pub mod doubly;
