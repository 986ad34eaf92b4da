//! Verified core of the file manager backend: parsing of the system tables, fuzzy scoring and
//! the search walk, the listing orders, MD5 cache names, archive listing rows, bounded line
//! counts and the request bookkeeping around them.
pub mod text;
mod table;
pub mod aliases;
pub mod icons;
pub mod fuzzy;
pub mod md5;
pub mod archivespec;
pub mod convert;
pub mod owner;
pub mod kind;
pub mod linecount;
pub mod order;
pub mod sort;
pub mod listing;
pub mod scan;
pub mod search;
pub mod searchreq;
pub mod dirsizereq;
pub mod testdir;
pub mod metasort;
