//! The verified core of an index and storage laboratory: the on-heap and
//! packed index layouts that are compared against each other, and the rules by
//! which the experiments around them are generated, driven and judged.

pub mod advice;
pub mod bloom;
pub mod browse;
pub mod btree;
pub mod btree_page;
pub mod bytes;
pub mod claims;
pub mod concur;
pub mod crash;
pub mod crash_child;
pub mod crash_run;
pub mod damage;
pub mod digits;
pub mod ext;
pub mod figures;
pub mod flat;
pub mod hash;
pub mod hash_flat;
pub mod hash_packed;
pub mod hash_paged;
pub mod heap_hash;
pub mod host;
pub mod inverted;
pub mod keyset;
pub mod kvbench;
pub mod lab;
pub mod layout;
pub mod layouts;
pub mod load;
pub mod memory;
pub mod mph;
pub mod mph_paged;
pub mod mvcc;
pub mod packed;
pub mod paged;
pub mod pages;
pub mod pass;
pub mod prefix;
pub mod report;
pub mod rng;
pub mod smaps;
pub mod soak;
pub mod sort;
pub mod splitmix;
pub mod stores;
pub mod supbench;
pub mod survivors;
pub mod table;
pub mod tablebench;
pub mod text;
pub mod trace;
pub mod varint;
pub mod verdict;
pub mod wal;
