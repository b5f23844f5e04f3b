pub mod bam_ext;
pub mod barcodes;
pub mod bytes;
pub mod categorical;
pub mod config;
pub mod deduplication;
pub mod engine;
pub mod extractors;
pub mod filters;
pub mod gtf;
pub mod gtf_parse;
pub mod quantification;
pub mod text;
