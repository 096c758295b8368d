//! A multi-probe CMSIS-DAP debug adapter on RP2040 and RP2350: N SWD probes and M
//! serial bridges, with the topology configured at boot from flash.
//!
//! The library holds what the firmware and its host tools compute and decide; the
//! hardware, the USB stack and the file system are driven from outside.
//!
//! * Configuration: [`config`] has the schema and its validation, [`board_toml`] and
//!   [`topology_toml`] the readable forms, [`wire`] the encodings.
//! * Config protocol: [`protocol`] has the commands, [`vendor`] the probe's side,
//!   [`session`] the host's side, and [`exchange`] what both achieve together.
//! * Probe: [`boot`] and [`flash_config`] choose and keep the configuration,
//!   [`instances`] assigns pins and state machines, [`swd`] and [`dap`] drive the
//!   wire, [`reset_iface`] answers reset requests.
//! * Serial bridges: [`uart_bridge`], with the baud-rate measurement of [`autobaud`]
//!   and [`autobaud_estimator`].
//! * Host tools: [`transport`] selects the device, [`cli`] and [`web`] are what the
//!   command line and the browser show.

pub mod autobaud;
pub mod autobaud_estimator;
pub mod bits;
pub mod board_toml;
pub mod boot;
pub mod bytes;
pub mod cli;
pub mod config;
pub mod dap;
pub mod exchange;
pub mod fixed_vec;
pub mod flash_config;
pub mod instances;
pub mod protocol;
pub mod reset_iface;
pub mod session;
pub mod swd;
pub mod text;
pub mod topology_toml;
pub mod transport;
pub mod uart_bridge;
pub mod vendor;
pub mod web;
pub mod wire;
