//! Topologies and board profiles against the limits of the chips.

use rustprobe::config::{
    rp2040, rp2350a, rp2350b, uart_rx_instance, uart_tx_instance, BoardProfile, ProbeConfig,
    Topology, UartConfig, ValidationError,
};

fn probe(swclk: u8, swdio: u8) -> ProbeConfig {
    ProbeConfig { swclk, swdio, reset: None }
}

#[test]
fn stock_single_probe_valid() {
    let mut t = Topology::default();
    t.probes.push(ProbeConfig { swclk: 2, swdio: 3, reset: Some(1) }).unwrap();
    t.uarts.push(UartConfig { tx: 4, rx: 5, baud: 115200 }).unwrap();
    assert_eq!(t.validate(&rp2040(), &BoardProfile::pico()), Ok(()));
}

#[test]
fn pin_conflict_rejected() {
    let mut t = Topology::default();
    t.probes.push(probe(2, 3)).unwrap();
    t.probes.push(probe(3, 6)).unwrap();
    assert_eq!(
        t.validate(&rp2040(), &BoardProfile::pico()),
        Err(ValidationError::PinConflict(3))
    );
}

#[test]
fn reserved_pin_rejected() {
    let mut t = Topology::default();
    t.probes.push(probe(25, 3)).unwrap(); // GP25 = Pico onboard LED
    assert_eq!(
        t.validate(&rp2040(), &BoardProfile::pico()),
        Err(ValidationError::PinUnavailable(25))
    );
}

#[test]
fn sm_budget_counts_autobaud() {
    let mut t = Topology::default();
    // 8 probes consume all RP2040 SMs; adding a UART needs a 9th for autobaud.
    for i in 0..8 {
        t.probes.push(probe(2 * i, 2 * i + 1)).unwrap();
    }
    assert_eq!(t.validate(&rp2040(), &BoardProfile::pico()), Ok(()));
    t.uarts.push(UartConfig { tx: 16, rx: 17, baud: 115200 }).unwrap();
    assert_eq!(
        t.validate(&rp2040(), &BoardProfile::pico()),
        Err(ValidationError::TooManyProbes)
    );
}

#[test]
fn one_pin_twice_in_a_probe_is_a_conflict() {
    let mut t = Topology::default();
    t.probes.push(ProbeConfig { swclk: 2, swdio: 3, reset: Some(2) }).unwrap();
    assert_eq!(
        t.validate(&rp2040(), &BoardProfile::pico()),
        Err(ValidationError::PinConflict(2))
    );
}

#[test]
fn pins_beyond_the_chip_are_unavailable() {
    let everything = BoardProfile { available: u64::MAX, reserved: 0 };
    for pin in [30u8, 47, 48, 63, 64, 255] {
        let mut t = Topology::default();
        t.probes.push(probe(0, pin)).unwrap();
        assert_eq!(
            t.validate(&rp2040(), &everything),
            Err(ValidationError::PinUnavailable(pin))
        );
        let expected = if pin < 48 { Ok(()) } else { Err(ValidationError::PinUnavailable(pin)) };
        assert_eq!(t.validate(&rp2350b(), &everything), expected);
    }
}

#[test]
fn endpoint_budget_is_checked() {
    let mut t = Topology::default();
    for i in 0..6 {
        t.probes.push(probe(2 * i, 2 * i + 1)).unwrap();
    }
    t.uarts.push(UartConfig { tx: 16, rx: 17, baud: 9600 }).unwrap();
    t.uarts.push(UartConfig { tx: 20, rx: 21, baud: 9600 }).unwrap();
    // 6 probes and 2 UARTs take 10 IN endpoints.
    let mut chip = rp2040();
    chip.ep_numbers_per_dir = 10;
    assert_eq!(t.validate(&chip, &BoardProfile::pico()), Ok(()));
    chip.ep_numbers_per_dir = 9;
    assert_eq!(
        t.validate(&chip, &BoardProfile::pico()),
        Err(ValidationError::EndpointBudget)
    );
}

#[test]
fn bridges_need_the_pins_of_one_uart() {
    let check = |tx: u8, rx: u8| {
        let mut t = Topology::default();
        t.uarts.push(UartConfig { tx, rx, baud: 115200 }).unwrap();
        t.validate(&rp2350a(), &BoardProfile::pico())
    };
    assert_eq!(check(0, 1), Ok(()));
    assert_eq!(check(0, 13), Ok(()));
    assert_eq!(check(8, 21), Ok(()));
    assert_eq!(check(0, 5), Err(ValidationError::UartPinMux(0)));
    assert_eq!(check(5, 4), Err(ValidationError::UartPinMux(5)));
    assert_eq!(check(2, 3), Err(ValidationError::UartPinMux(2)));
}

#[test]
fn bridges_need_uarts_of_their_own() {
    let mut t = Topology::default();
    t.uarts.push(UartConfig { tx: 4, rx: 5, baud: 115200 }).unwrap();
    t.uarts.push(UartConfig { tx: 8, rx: 9, baud: 115200 }).unwrap();
    assert_eq!(
        t.validate(&rp2040(), &BoardProfile::pico()),
        Err(ValidationError::UartInstanceConflict(1))
    );
}

#[test]
fn uart_pins_resolve_to_instances() {
    for pin in 0..=255u8 {
        let tx = match pin {
            0 | 12 | 16 | 28 => Some(0),
            4 | 8 | 20 | 24 => Some(1),
            _ => None,
        };
        let rx = match pin {
            1 | 13 | 17 | 29 => Some(0),
            5 | 9 | 21 | 25 => Some(1),
            _ => None,
        };
        assert_eq!(uart_tx_instance(pin), tx);
        assert_eq!(uart_rx_instance(pin), rx);
    }
}

#[test]
fn assignable_pins_of_the_pico() {
    let pico = BoardProfile::pico();
    for pin in 0..=255u8 {
        let expected = pin <= 22 || (26..=28).contains(&pin);
        assert_eq!(pico.is_assignable(pin), expected, "pin {}", pin);
    }
}

#[test]
fn profiles_are_validated() {
    assert_eq!(BoardProfile::pico().validate(&rp2040()), Ok(()));
    let beyond = BoardProfile { available: 1u64 << 30, reserved: 0 };
    assert_eq!(beyond.validate(&rp2040()), Err(ValidationError::ProfilePinRange));
    assert_eq!(beyond.validate(&rp2350b()), Ok(()));
    let nothing = BoardProfile { available: 0xFF, reserved: 0xFF };
    assert_eq!(nothing.validate(&rp2040()), Err(ValidationError::ProfileEmpty));
    let far = BoardProfile { available: 1u64 << 63, reserved: 0 };
    assert_eq!(far.validate(&rp2350b()), Err(ValidationError::ProfilePinRange));
}

#[test]
fn reserved_pins_are_never_accepted() {
    let profile = BoardProfile { available: 0x1_FFFF, reserved: 1 << 16 };
    let mut t = Topology::default();
    t.probes.push(probe(16, 3)).unwrap();
    assert_eq!(t.validate(&rp2350a(), &profile), Err(ValidationError::PinUnavailable(16)));
}

#[test]
fn clones_are_equal() {
    let mut t = Topology::default();
    t.probes.push(ProbeConfig { swclk: 2, swdio: 3, reset: Some(1) }).unwrap();
    t.uarts.push(UartConfig { tx: 4, rx: 5, baud: 115200 }).unwrap();
    let copy = t.clone();
    assert_eq!(copy, t);
    assert_eq!(copy.probes.len(), 1);
    assert_eq!(copy.uarts[0].baud, 115200);
}

#[test]
fn smaller_topologies_stay_valid() {
    let mut t = Topology::default();
    for i in 0..6 {
        t.probes.push(probe(2 * i, 2 * i + 1)).unwrap();
    }
    t.uarts.push(UartConfig { tx: 16, rx: 17, baud: 115200 }).unwrap();
    t.uarts.push(UartConfig { tx: 20, rx: 21, baud: 9600 }).unwrap();
    let profile = BoardProfile { available: 0x3FFFFF, reserved: 1 << 14 };
    assert_eq!(t.validate(&rp2040(), &profile), Ok(()));
    let wider = BoardProfile { available: 0xFFFFFF, reserved: 0 };
    for drop in 0..64u8 {
        let mut fewer = Topology::default();
        for i in 0..6 {
            if drop & (1 << i) == 0 {
                fewer.probes.push(t.probes[i]).unwrap();
            }
        }
        fewer.uarts.push(t.uarts[1]).unwrap();
        assert_eq!(fewer.validate(&rp2040(), &profile), Ok(()));
        assert_eq!(fewer.validate(&rp2040(), &wider), Ok(()));
    }
}
