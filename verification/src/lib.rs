//! Verified core of a IIIF server.
pub mod text;
pub mod error;
pub mod identifier;
pub mod config;
pub mod services;
pub mod content_state;
pub mod decimal;
pub mod quality_format;
pub mod search_index;
pub mod annotation;
pub mod search_service;
pub mod auth;
pub mod auth_flow;
pub mod discovery;
pub mod storage;
pub mod image_params;
pub mod image_service;
pub mod presentation;
