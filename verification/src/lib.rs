//! Structural metrics of undirected graphs given as lists of labelled edges:
//! average degree, average local clustering and average shortest-path distance.

pub mod backend;
pub mod topology;
pub mod paths;
pub mod store;
pub mod tally;
pub mod degrees;
pub mod clustering;
pub mod distances;
pub mod relabel;
pub mod ingest;
pub mod profile;
pub mod report;
