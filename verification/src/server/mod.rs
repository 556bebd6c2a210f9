pub mod dns;
pub mod dns_cache;
pub mod resolver;
