pub mod text;
pub mod sorting;
pub mod buildinfo;
pub mod jobs;
pub mod tags;
pub mod interest;
pub mod catalog;
pub mod excluded;
pub mod tagops;
pub mod collection;
pub mod library;
pub mod words;
pub mod layout;
pub mod booktags;
pub mod highlight;
