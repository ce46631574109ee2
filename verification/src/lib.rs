//! A declarative reconciler for remote APIs.

pub mod config;
pub mod config_laws;
pub mod dag;
pub mod dag_laws;
pub mod derived;
pub mod derived_laws;
pub mod executor;
pub mod executor_laws;
pub mod fake;
pub mod fake_laws;
pub mod field_value;
pub mod graph;
pub mod guard;
pub mod guard_laws;
pub mod ignore;
pub mod jq;
pub mod jq_expr;
pub mod json;
pub mod json_laws;
pub mod ldap;
pub mod logging;
pub mod message_laws;
pub mod meta;
pub mod meta_laws;
pub mod order;
pub mod order_laws;
pub mod plan;
pub mod plan_laws;
pub mod provider;
pub mod provider_host;
pub mod reconcile;
pub mod reconcile_laws;
pub mod report;
pub mod report_laws;
pub mod saturation;
pub mod saturation_laws;
pub mod sources;
pub mod strmap;
pub mod strmap_laws;
pub mod subprocess;
pub mod text;
pub mod text_laws;
pub mod views;
pub mod wire_laws;
