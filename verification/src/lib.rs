//! sniffbox.
pub mod addr;
pub mod bytes;
pub mod cf_config;
pub mod cf_ctl;
pub mod cf_edge;
pub mod cf_metrics;
pub mod cf_probe;
pub mod cf_quality;
pub mod cf_summary;
pub mod cidr;
pub mod civil;
pub mod clash_ctl;
pub mod clash_pull;
pub mod cli;
pub mod config;
pub mod decimal;
pub mod dns_server;
pub mod domain_rules;
pub mod engine;
pub mod geo_cron;
pub mod inbound_proxy;
pub mod info;
pub mod ip_rules;
pub mod json;
pub mod logging;
pub mod names;
pub mod nearest;
pub mod nft;
pub mod nic;
pub mod outbound;
pub mod ovpn_ctl;
pub mod pplog;
pub mod probe;
pub mod production;
pub mod records;
pub mod resolver;
pub mod runtime;
pub mod smart_speed;
pub mod sysinfo;
pub mod table;
pub mod tasks;
pub mod text;
