//! Encrypted framed object storage: frame codec, streaming windows, upload
//! segmentation, rate quotas and the file and object catalog rules.
pub mod buffer;
pub mod crypto;
pub mod request;
pub mod frame;
pub mod sizing;
pub mod pacer;
pub mod budget;
pub mod sums;
pub mod stream;
pub mod stream_laws;
pub mod download;
pub mod join;
pub mod byte;
pub mod hash;
pub mod upload;
pub mod planning;
pub mod window;
pub mod window_laws;
pub mod fixed_stream;
pub mod fixed_laws;
pub mod webhook;
pub mod registry;
pub mod ratelimit;
pub mod discord;
pub mod http;
pub mod catalog;
pub mod file_laws;
pub mod s3;
pub mod config;
pub mod measure;
pub mod metadata;
pub mod cli;
pub mod quota;
pub mod quota_handle;
pub mod quota_laws;
pub mod text;
