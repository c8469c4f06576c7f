//! A runner for query compatibility suites: a plain-text file pairs SQL queries
//! with the rows they must return, and each case is judged by comparing the
//! rows a server returned with the recorded ones, cell by cell, as text.
pub mod text;
pub mod suite;
pub mod compare;
pub mod runner;
