//! Detection and reporting of static routing loops in IPv4 and IPv6 networks.

pub mod checker;
pub mod client_scan;
pub mod groups;
pub mod icmp;
pub mod ip;
pub mod lines;
pub mod loops;
pub mod notifier;
pub mod order;
pub mod records;
pub mod registry;
pub mod report;
pub mod sender;
pub mod targets;
pub mod text;
