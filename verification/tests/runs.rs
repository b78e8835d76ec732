//! Worlds of devices: invariants, random runs and scenarios.

use digital_euro_wallet::harness::{
    check_invariants, check_parameters, choose_operation, device_seed, fuzz, fuzz_step,
    money_on_accounts, pair, run_money, run_operations_seed, run_world_seed, snapshot,
    tally, value_on_devices, world, Config, FuzzFailure, Operation, Step, Violation,
};
use digital_euro_wallet::scenarios::{
    all_pass, count_failures, rogue_certificate, rogue_seed, Failure, Scenario,
};
use digital_euro_wallet::{Error, Keypair};
use rand::{rngs::StdRng, SeedableRng};

fn config(seed: u64) -> Config {
    Config {
        issuer_key: Keypair::generate(512, &mut StdRng::seed_from_u64(seed)).unwrap(),
        key_bits: 512,
        seed,
        limit: 50_000,
        devices: 3,
        ops: 60,
    }
}

#[test]
fn every_scenario_passes() {
    let cfg = config(2026);
    let names: Vec<&str> = Scenario::all().iter().map(|s| s.name()).collect();
    assert_eq!(names[7], "cracked element counterfeits");
    for scenario in Scenario::all() {
        if let Err(failure) = scenario.run(&cfg) {
            panic!("{}: {}", scenario.name(), failure.message());
        }
    }
}

#[test]
fn random_runs_keep_every_invariant() {
    let cfg = config(7);
    let (w, steps) = match fuzz(&cfg) {
        Ok(run) => run,
        Err(failure) => panic!("{failure:?}"),
    };
    assert_eq!(steps.len(), 60);
    assert!(steps.iter().any(|s| s.result.is_ok()));
    assert_eq!(check_invariants(&w, cfg.limit, 75_000 * 3), Ok(()));
    assert_eq!(
        value_on_devices(&w) as i128,
        w.issuer.offline_float()
    );
    assert_eq!(
        money_on_accounts(&w) + value_on_devices(&w),
        75_000 * 3
    );
}

#[test]
fn violations_are_found() {
    let cfg = config(8);
    let mut w = world(&cfg, 1, &[1_000, 2_000]).unwrap();
    assert_eq!(check_invariants(&w, 500, 3_000), Ok(()));
    assert_eq!(
        check_invariants(&w, 500, 3_001),
        Err(Violation::SupplyMoved {
            online: 3_000,
            on_devices: 0
        })
    );
    w.fund(1, 600).unwrap();
    assert_eq!(
        check_invariants(&w, 500, 3_000),
        Err(Violation::OverLimit {
            device: 1,
            balance: 600
        })
    );
    w.devices[1].crack_secure_element();
    w.pay(1, 0, 100).unwrap();
    assert_eq!(
        check_invariants(&w, 5_000, 3_000),
        Err(Violation::FloatOff {
            on_devices: 700,
            float: 600
        })
    );
    w.devices[0].request_payment(5).unwrap();
    assert_eq!(
        check_invariants(&w, 5_000, 3_000),
        Err(Violation::Dangling { device: 0 })
    );
}

#[test]
fn snapshots_show_changes() {
    let cfg = config(9);
    let mut w = world(&cfg, 1, &[1_000, 2_000]).unwrap();
    let before = snapshot(&w);
    assert_eq!(before.devices, vec![(0, 0), (0, 0)]);
    assert_eq!(before.accounts, vec![Some(1_000), Some(2_000)]);
    assert_eq!(before.float, 0);
    assert!(w.fund(0, 1_001).is_err());
    assert!(snapshot(&w).same(&before));
    w.fund(0, 1_000).unwrap();
    let after = snapshot(&w);
    assert!(!after.same(&before));
    assert_eq!(after.devices, vec![(1_000, 0), (0, 0)]);
    assert_eq!(after.accounts, vec![Some(0), Some(2_000)]);
    assert_eq!(after.float, 1_000);
}

#[test]
fn a_die_picks_the_operation() {
    let amount = 10;
    for die in 0..2 {
        assert_eq!(
            choose_operation(6, 4, amount, die, 1),
            Operation::Fund { device: 4, amount }
        );
    }
    assert_eq!(
        choose_operation(6, 4, amount, 2, 1),
        Operation::Defund { device: 4, amount }
    );
    assert_eq!(
        choose_operation(6, 4, amount, 3, 1),
        Operation::Pay {
            payer: 4,
            payee: 5,
            amount
        }
    );
    assert_eq!(
        choose_operation(6, 4, amount, 9, 5),
        Operation::Pay {
            payer: 4,
            payee: 3,
            amount
        }
    );
}

#[test]
fn steps_are_carried_out_and_checked() {
    let cfg = config(10);
    let mut w = world(&cfg, 1, &[1_000, 0]).unwrap();
    let fund = Operation::Fund {
        device: 0,
        amount: 400,
    };
    assert_eq!(
        fuzz_step(&mut w, 0, fund, 500, 1_000).unwrap().result,
        Ok(400)
    );
    let pay = Operation::Pay {
        payer: 0,
        payee: 1,
        amount: 500,
    };
    assert_eq!(
        fuzz_step(&mut w, 1, pay, 500, 1_000).unwrap().result,
        Err(Error::InsufficientFunds {
            requested: 500,
            available: 400
        })
    );
    let defund = Operation::Defund {
        device: 0,
        amount: 150,
    };
    assert_eq!(
        fuzz_step(&mut w, 2, defund, 500, 1_000).unwrap().result,
        Ok(150)
    );
    assert_eq!(w.devices[0].balance(), 250);
    assert!(fuzz_step(&mut w, 3, fund, 500, 999).is_err());
}

#[test]
fn pairs_are_distinct_devices() {
    let cfg = config(11);
    let mut w = world(&cfg, 1, &[0, 0, 0]).unwrap();
    let ids: Vec<_> = w.devices.iter().map(|d| d.device()).collect();
    let (a, b) = pair(&mut w.devices, 2, 0);
    assert_eq!((a.device(), b.device()), (ids[2], ids[0]));
    let (a, b) = pair(&mut w.devices, 0, 1);
    assert_eq!((a.device(), b.device()), (ids[0], ids[1]));
}

#[test]
fn parameters_are_checked() {
    assert_eq!(check_parameters(512, 2_000, 2), Ok(()));
    assert_eq!(
        check_parameters(510, 2_000, 2),
        Err("--key-bits must be even and at least 512")
    );
    assert_eq!(
        check_parameters(513, 2_000, 2),
        Err("--key-bits must be even and at least 512")
    );
    assert_eq!(
        check_parameters(512, 1_999, 2),
        Err("--limit must be at least 2000 cents (the scenarios pay up to 20 €)")
    );
    assert_eq!(
        check_parameters(512, 2_000, 1),
        Err("--devices must be at least 2")
    );
}

#[test]
fn a_rogue_certificate_verifies_under_no_other_key() {
    let cfg = config(12);
    let rogue = rogue_certificate(&cfg).unwrap();
    assert_eq!(rogue.holding_limit_cents, 50_000);
    assert!(!rogue.verify(cfg.issuer_key.public_key()));
}

#[test]
fn a_scenario_needs_room_for_its_amounts() {
    let mut cfg = config(13);
    cfg.limit = 2_000;
    match Scenario::LostDevice.run(&cfg) {
        Err(failure) => assert_eq!(
            failure,
            Failure::Refused {
                what: "",
                error: Error::HoldingLimitExceeded {
                    requested: 4_000,
                    headroom: 2_000
                }
            }
        ),
        Ok(_) => panic!("the device was funded over its limit"),
    }
    assert!(Scenario::CrackedElement.run(&cfg).is_ok());
}

#[test]
fn seeds_are_spread() {
    assert_eq!(device_seed(5, 0), 5 ^ (1u64 << 32));
    assert_eq!(device_seed(5, 2), 5 ^ (3u64 << 32));
    assert_eq!(run_world_seed(1), 0xf023);
    assert_eq!(run_operations_seed(1), 0x5eec);
    assert_eq!(rogue_seed(0), 0x0bad);
    assert_eq!(Scenario::PartialPayment.seed(2026), 2026);
    assert_eq!(Scenario::CrackedElement.seed(2026), 2033);
}

#[test]
fn an_empty_world_is_always_built() {
    let cfg = config(14);
    let w = world(&cfg, 1, &[]).unwrap();
    assert_eq!(w.devices.len(), 0);
    assert_eq!(check_invariants(&w, 0, 0), Ok(()));
}

#[test]
fn devices_have_keys_of_the_width_asked_for() {
    let mut cfg = config(15);
    cfg.key_bits = 528;
    let w = world(&cfg, 1, &[1]).unwrap();
    assert_eq!(w.devices[0].certificate().public_key.modulus_bytes(), 66);
}

#[test]
fn outcomes_are_counted() {
    assert_eq!(count_failures(&[]), 0);
    assert!(all_pass(&[true, true]));
    assert_eq!(count_failures(&[true, false, true, false]), 2);
    assert!(!all_pass(&[true, false]));
}

#[test]
fn labels_are_tallied_in_order() {
    assert_eq!(tally(&[]), vec![]);
    let pay = Operation::Pay {
        payer: 0,
        payee: 1,
        amount: 5,
    };
    let fund = Operation::Fund {
        device: 0,
        amount: 5,
    };
    let defund = Operation::Defund {
        device: 1,
        amount: 5,
    };
    let step = |operation, result| Step { operation, result };
    let poor = Error::InsufficientFunds {
        requested: 5,
        available: 1,
    };
    let poorer = Error::InsufficientFunds {
        requested: 5,
        available: 0,
    };
    let steps = [
        step(pay, Ok(5)),
        step(fund, Ok(5)),
        step(pay, Err(poor)),
        step(pay, Ok(5)),
        step(defund, Ok(5)),
        step(pay, Err(poorer)),
        step(pay, Ok(5)),
        step(fund, Err(Error::AmountOverflow)),
    ];
    let counts = tally(&steps);
    let expected = [
        ("defund: ok", 1),
        ("fund: ok", 1),
        ("fund: refused, AmountOverflow", 1),
        ("pay: ok", 3),
        ("pay: refused, InsufficientFunds", 2),
    ];
    assert_eq!(counts.len(), expected.len());
    for (count, (label, number)) in counts.iter().zip(expected) {
        assert_eq!(count.0, label);
        assert_eq!(count.1, number);
    }
}

#[test]
fn runs_in_words() {
    let operation = Operation::Pay {
        payer: 0,
        payee: 1,
        amount: 5,
    };
    let fund = Operation::Fund {
        device: 0,
        amount: 5,
    };
    let step = |operation, result| Step { operation, result };
    assert_eq!(step(operation, Ok(5)).label(), "pay: ok");
    assert_eq!(
        step(
            fund,
            Err(Error::InsufficientFunds {
                requested: 5,
                available: 1
            })
        )
        .label(),
        "fund: refused, InsufficientFunds"
    );
    let defund = Operation::Defund {
        device: 0,
        amount: 5,
    };
    assert_eq!(defund.kind(), "defund");
    assert_eq!(run_money(50_000, 6), 450_000);
    let words = |violation: Violation| violation.message(500, 3_000);
    assert_eq!(
        words(Violation::OverLimit {
            device: 1,
            balance: 600
        }),
        "device 1 holds 600 over a 500 limit"
    );
    assert_eq!(
        words(Violation::Dangling { device: 2 }),
        "device 2 kept a reservation"
    );
    assert_eq!(
        words(Violation::FloatOff {
            on_devices: 700,
            float: -600
        }),
        "700 on devices but float says -600"
    );
    let violation = Violation::SupplyMoved {
        online: 2_000,
        on_devices: 700,
    };
    assert_eq!(
        words(violation),
        "money supply moved: 2000 online + 700 offline != 3000"
    );
    let failures = [
        (
            FuzzFailure::Setup {
                error: Error::EntropyExhausted,
            },
            "could not set up: no usable randomness",
        ),
        (
            FuzzFailure::Exhausted { step: 3 },
            "at step 3: the element cannot count another debit",
        ),
        (
            FuzzFailure::Changed {
                step: 4,
                operation,
                error: Error::ZeroAmount,
            },
            "at step 4: refused pay (amount is zero) changed state",
        ),
        (
            FuzzFailure::Broken {
                step: 5,
                operation: fund,
                violation,
            },
            "at step 5 after fund: money supply moved: 2000 online + 700 offline != 3000",
        ),
    ];
    for (failure, text) in failures {
        assert_eq!(failure.message(500, 3_000), text);
    }
}

#[test]
fn readiness_is_asked_of_debits_only() {
    let cfg = config(16);
    let w = world(&cfg, 1, &[1_000, 0]).unwrap();
    assert!(w.is_ready(Operation::Fund {
        device: 0,
        amount: 5
    }));
    assert!(w.is_ready(Operation::Pay {
        payer: 0,
        payee: 1,
        amount: 5
    }));
    assert!(!w.devices[0].would_pay(&w.devices[1], 5));
}
