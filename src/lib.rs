pub mod backend_registry;
pub mod config;
pub mod consul_integration;
pub mod grpc_service;
pub mod http_proxy;
pub mod middleware;
pub mod text;
pub mod tls_config;
