# rustprobe

A multi-probe CMSIS-DAP debug adapter on RP2040 and RP2350: N SWD probes and M
CDC-UART bridges, with the topology configured at boot from flash instead of at
compile time. What the firmware and its host tools compute and decide is a library
verified with Verus.

## Layout

| Path | What it holds |
|---|---|
| `src/` | the verified library |
| `tests/` | tests of the library, with the outside crates linked |
| `app/main.rs` | `rustprobe`, the command line tool |
| `app/browser.rs`, `app/wasm.rs` | what the browser front end calls |
| `app/firmware/` | the drivers of the probe: PIO, USB, UART, flash, watchdog |

The library is plain functions and state machines. Where the firmware alternates
between hardware and decisions, the decision is a function from state and event to
state and action (`uart_bridge::Bridge`, `autobaud::CaptureEngine`, `dap::Transfer`,
`vendor::ConfigService`), and `app/` performs the actions.

## What is proved

* `config`: `Topology::validate` accepts exactly the topologies that keep the
  state-machine and endpoint budgets, use existing, assignable pins once each, and
  give every bridge a hardware UART of its own; dropping probes or bridges keeps a
  topology valid.
* `board_toml`, `topology_toml`: pin-range strings, profiles and topologies read back
  from their readable form.
* `wire`, `vendor`, `session`, `exchange`: the bytes of every encoding, every response
  of the config protocol, that what a host writes arrives and what it reads is
  what the probe has, and that nothing is sent after a bad response.
* `instances`, `autobaud`: an accepted topology can be built on a chip of up to 30 GPIOs,
  and leaves a state machine for autobaud if it has a bridge; results are published
  for the session that runs.
* `swd`, `dap`: command words, clock dividers, and which operations every SWD transfer and
  sequence asks of the wire engine, with the outcome; single-bit errors are noticed.
* `boot`, `flash_config`: what is booted, with the default topology as fallback, and
  what is stored under which key.
* `autobaud_estimator`: the open-addressing frequency table is a map from pulse widths
  to counts.

`postcard`, `serde_json`, `heapless` and `dap-rs` are called through functions whose
contracts are believed; each says which function of the crate it calls. The contracts of
the trait `swd::SwdBus` are believed of the driver in `app/` that implements it.

## Configuration

```toml
# topology.toml
[[probes]]
swclk = 2
swdio = 3
reset = 1

[[uarts]]
tx = 4
rx = 5
baud = 115200
```

```toml
# board profile: Waveshare RP2350-Zero
available = "0-16,26-29"
reserved = "16"   # WS2812 LED
```

```sh
rustprobe list                        # attached probes
rustprobe info                        # chip, versions, limits, active probes/uarts
rustprobe get > topology.toml         # dump the active topology
rustprobe set topology.toml --reboot  # validate, stage, commit, reboot
rustprobe get-board                   # dump the board profile
rustprobe set-board board.toml        # store a board profile
rustprobe reboot [--bootsel]          # reboot the probe
```
