//! End-to-end scenarios: each plays a short story on a world of devices and
//! checks how it ends.

use crate::certificate::{CertificateView, DeviceCertificate};
use crate::error::Error;
use crate::harness::{
    device_key, same_device, value_on, with_one, with_two, Config, World, WorldView,
};
use crate::id::AccountId;
use crate::issuer::Issuer;
use crate::message::{
    Defunding, DefundingView, PaymentRequest, PaymentRequestView, Transfer, TransferView,
};
use crate::script::{
    asked, cracked, defundable, due, first, fund_effect, fund_step, fundable, funds, handed,
    inflated, lawful, limit_of, on_track, over, pay_effect, pay_step, payable, plays, presented,
    pristine, put, redirected, short, stage_after_answer, stage_after_ask, stage_after_order, step,
    Chance, Move, StageView, Track,
};
use crate::signature::{Keypair, PublicKeyView};
use crate::wallet::WalletView;
use rand::rngs::StdRng;
use vstd::prelude::*;

verus! {

/// What came in place of what was expected.
#[derive(Debug, PartialEq, Eq)]
pub enum Got {
    /// A payment of this amount was credited.
    Credited(u64),
    /// This transfer was made.
    Paid(Transfer),
    /// It was refused for another reason.
    Refused(Error),
}

/// Why a scenario failed.
#[derive(Debug, PartialEq, Eq)]
pub enum Failure {
    /// The world could not be built.
    Setup { error: Error },
    /// Something was refused that should go through.
    Refused { what: &'static str, error: Error },
    /// Something was refused for another reason than it should be, or not at all.
    Unexpected { expected: &'static str, got: Got },
    /// Something is not as it should be.
    Wrong { what: &'static str },
    /// An amount is not what it should be.
    WrongAmount { what: &'static str, cents: u64 },
    /// A number is not what it should be.
    WrongNumber { what: &'static str, number: i128 },
    /// An account does not hold what it should.
    WrongAccount { what: &'static str, holds: Option<u64> },
    /// There is more, or less, value on all devices than there should be.
    NotConserved { value: u128 },
}

/// What came in place of what was expected, as plain values.
pub enum GotView {
    Credited(u64),
    Paid(TransferView),
    Refused(Error),
}

/// Why a scenario failed, as plain values.
pub enum FailureView {
    Setup { error: Error },
    Refused { what: &'static str, error: Error },
    Unexpected { expected: &'static str, got: GotView },
    Wrong { what: &'static str },
    WrongAmount { what: &'static str, cents: u64 },
    WrongNumber { what: &'static str, number: i128 },
    WrongAccount { what: &'static str, holds: Option<u64> },
    NotConserved { value: u128 },
}

impl View for Got {
    type V = GotView;

    open spec fn view(&self) -> GotView {
        match self {
            Got::Credited(cents) => GotView::Credited(*cents),
            Got::Paid(transfer) => GotView::Paid(transfer@),
            Got::Refused(error) => GotView::Refused(*error),
        }
    }
}

impl View for Failure {
    type V = FailureView;

    open spec fn view(&self) -> FailureView {
        match self {
            Failure::Setup { error } => FailureView::Setup { error: *error },
            Failure::Refused { what, error } => FailureView::Refused { what, error: *error },
            Failure::Unexpected { expected, got } => FailureView::Unexpected {
                expected,
                got: got@,
            },
            Failure::Wrong { what } => FailureView::Wrong { what },
            Failure::WrongAmount { what, cents } => FailureView::WrongAmount {
                what,
                cents: *cents,
            },
            Failure::WrongNumber { what, number } => FailureView::WrongNumber {
                what,
                number: *number,
            },
            Failure::WrongAccount { what, holds } => FailureView::WrongAccount {
                what,
                holds: *holds,
            },
            Failure::NotConserved { value } => FailureView::NotConserved { value: *value },
        }
    }
}

/// The result of a scenario as plain values.
pub open spec fn shown(r: Result<(), Failure>) -> Result<(), FailureView> {
    match r {
        Ok(_) => Ok(()),
        Err(failure) => Err(failure@),
    }
}

/// The text shown for what came in place of what was expected.
pub open spec fn got_text(got: GotView) -> Seq<char> {
    match got {
        GotView::Credited(cents) => "Ok("@ + crate::text::decimal_text(cents as nat) + ")"@,
        GotView::Paid(transfer) => "Ok("@ + crate::message::transfer_debug(transfer) + ")"@,
        GotView::Refused(error) => "Err("@ + crate::error::error_debug(error) + ")"@,
    }
}

/// The text shown for what is on an account.
pub open spec fn holds_text(holds: Option<u64>) -> Seq<char> {
    match holds {
        Some(cents) => "Some("@ + crate::text::decimal_text(cents as nat) + ")"@,
        None => "None"@,
    }
}

/// The text shown for a failure.
pub open spec fn failure_text(failure: FailureView) -> Seq<char> {
    match failure {
        FailureView::Setup { error } => "could not set up: "@ + crate::error::error_text(error),
        FailureView::Refused { what, error } => what@ + crate::error::error_text(error),
        FailureView::Unexpected { expected, got } => "expected "@ + expected@ + ", got "@
            + got_text(got),
        FailureView::Wrong { what } => what@,
        FailureView::WrongAmount { what, cents } => what@ + crate::text::euros_text(cents as nat),
        FailureView::WrongNumber { what, number } => what@ + crate::text::signed_text(
            number as int,
        ),
        FailureView::WrongAccount { what, holds } => what@ + holds_text(holds),
        FailureView::NotConserved { value } => "value not conserved: "@ + crate::text::euros_text(
            value as nat,
        ) + " on devices"@,
    }
}

impl Got {
    /// What came, in words.
    pub fn message(&self) -> (r: String)
        ensures
            r@ == got_text(self@),
    {
        let mut r: String = String::new();
        match self {
            Got::Credited(cents) => {
                r.append("Ok(");
                crate::text::push_decimal(&mut r, *cents as u128);
                r.append(")");
            },
            Got::Paid(transfer) => {
                r.append("Ok(");
                r.append(transfer.debug().as_str());
                r.append(")");
            },
            Got::Refused(error) => {
                r.append("Err(");
                r.append(error.debug().as_str());
                r.append(")");
            },
        }
        proof {
            assert(r@ =~= got_text(self@));
        }
        r
    }
}

impl Failure {
    /// The failure in words.
    pub fn message(&self) -> (r: String)
        ensures
            r@ == failure_text(self@),
    {
        let mut r: String = String::new();
        match self {
            Failure::Setup { error } => {
                r.append("could not set up: ");
                r.append(error.message().as_str());
            },
            Failure::Refused { what, error } => {
                r.append(what);
                r.append(error.message().as_str());
            },
            Failure::Unexpected { expected, got } => {
                r.append("expected ");
                r.append(expected);
                r.append(", got ");
                r.append(got.message().as_str());
            },
            Failure::Wrong { what } => {
                r.append(what);
            },
            Failure::WrongAmount { what, cents } => {
                r.append(what);
                crate::text::push_euros(&mut r, *cents as u128);
            },
            Failure::WrongNumber { what, number } => {
                r.append(what);
                crate::text::push_signed(&mut r, *number);
            },
            Failure::WrongAccount { what, holds } => {
                r.append(what);
                match holds {
                    Some(cents) => {
                        r.append("Some(");
                        crate::text::push_decimal(&mut r, *cents as u128);
                        r.append(")");
                    },
                    None => {
                        r.append("None");
                    },
                }
            },
            Failure::NotConserved { value } => {
                r.append("value not conserved: ");
                crate::text::push_euros(&mut r, *value);
                r.append(" on devices");
            },
        }
        proof {
            assert(r@ =~= failure_text(self@));
        }
        r
    }
}

// ---------------------------------------------------------------------------
// Single moves
// ---------------------------------------------------------------------------

/// A device takes the place of another with the same certificate and key, which
/// leaves a world in order.
proof fn lemma_device_replaced(before: WorldView, after: WorldView, a: int)
    requires
        before.well_formed(),
        0 <= a < before.devices.len(),
        with_one(before, after, a),
        after.issuer == before.issuer,
        after.devices[a].well_formed(),
        same_device(before.devices[a], WalletView {
            state: before.devices[a].state,
            ..after.devices[a]
        }),
    ensures
        after.well_formed(),
{
}

impl World {
    /// Funds a device, or says what went wrong.
    fn must_fund(&mut self, Ghost(t): Ghost<Track>, a: usize, amount: u64) -> (r: Result<
        (),
        Failure,
    >)
        requires
            old(self)@.well_formed(),
            a < old(self)@.devices.len(),
            due(t, Move::Fund { device: a as int, amount }, old(self)@),
        ensures
            final(self)@.well_formed(),
            with_one(old(self)@, final(self)@, a as int),
            same_device(old(self)@.devices[a as int], final(self)@.devices[a as int]),
            r is Ok ==> on_track(t.onward(final(self)@)),
            r matches Err(failure) ==> plays(t.before, t.moves, Err(failure@), final(self)@),
            fundable(old(self)@, a as int, amount) ==> match r {
                Ok(_) => fund_effect(old(self)@, a as int, amount, final(self)@),
                Err(failure) => {
                    ||| failure@ == (FailureView::Refused { what: "", error: Error::Replay })
                        && old(self)@.issuer.honoured != Set::<u128>::empty()
                    ||| failure@ == (FailureView::Refused {
                        what: "",
                        error: Error::AlreadyCredited,
                    }) && old(self)@.devices[a as int].credited != Set::<u128>::empty()
                },
            },
    {
        let result: Result<u64, Error> = self.fund(a, amount);
        proof {
            reveal(fund_step);
            reveal(step);
            reveal(lawful);
            assert(fund_step(old(self)@, a as int, amount, result, self@));
            if fundable(old(self)@, a as int, amount) {
                crate::script::lemma_fund_succeeds(old(self)@, a as int, amount, result, self@);
            }
            crate::script::lemma_made(
                t,
                Chance { nonce: arbitrary(), result, after: self@ },
            );
        }
        match result {
            Ok(_) => Ok(()),
            Err(error) => Err(Failure::Refused { what: "", error }),
        }
    }

    /// Whether a device can be debited, or else a failure.
    fn check_debit(&self, a: usize) -> (r: Result<(), Failure>)
        requires
            a < self@.devices.len(),
        ensures
            r is Ok <==> self@.devices[a as int].can_debit(),
            r matches Err(failure) ==> failure@ == crate::script::no_debit(),
    {
        proof {
            assert(self@.devices[a as int] == self.devices@[a as int]@);
        }
        if self.devices[a].can_debit() {
            Ok(())
        } else {
            Err(Failure::Wrong { what: "the element cannot count another debit" })
        }
    }

    /// Pays from one device to another. The outer result is a failure where the
    /// payer could not be asked.
    fn try_pay(&mut self, a: usize, b: usize, amount: u64) -> (r: Result<
        Result<u64, Error>,
        Failure,
    >)
        requires
            old(self)@.well_formed(),
            a != b,
            a < old(self)@.devices.len(),
            b < old(self)@.devices.len(),
        ensures
            final(self)@.well_formed(),
            r matches Ok(result) ==> pay_step(
                old(self)@,
                a as int,
                b as int,
                amount,
                result,
                final(self)@,
            ),
            r matches Err(failure) ==> {
                &&& !old(self)@.devices[a as int].can_debit()
                &&& failure@ == crate::script::no_debit()
                &&& final(self)@ == old(self)@
            },
    {
        proof {
            reveal(pay_step);
        }
        match self.check_debit(a) {
            Ok(_) => Ok(self.pay(a, b, amount)),
            Err(failure) => Err(failure),
        }
    }

    /// Pays from one device to another, or says what went wrong.
    fn must_pay(
        &mut self,
        Ghost(t): Ghost<Track>,
        a: usize,
        b: usize,
        amount: u64,
        what: &'static str,
    ) -> (r: Result<(), Failure>)
        requires
            old(self)@.well_formed(),
            a != b,
            a < old(self)@.devices.len(),
            b < old(self)@.devices.len(),
            due(t, Move::Pay { payer: a as int, payee: b as int, amount, what }, old(self)@),
        ensures
            final(self)@.well_formed(),
            final(self)@.devices.len() == old(self)@.devices.len(),
            r is Ok ==> with_two(old(self)@, final(self)@, a as int, b as int),
            r is Ok ==> on_track(t.onward(final(self)@)),
            r matches Err(failure) ==> plays(t.before, t.moves, Err(failure@), final(self)@),
            payable(old(self)@, a as int, b as int, amount) ==> match r {
                Ok(_) => pay_effect(old(self)@, a as int, b as int, amount, final(self)@),
                Err(failure) => failure@ == (FailureView::Refused {
                    what,
                    error: Error::AlreadyCredited,
                }) && old(self)@.devices[b as int].credited != Set::<u128>::empty(),
            },
    {
        let result: Result<Result<u64, Error>, Failure> = self.try_pay(a, b, amount);
        proof {
            reveal(pay_step);
            reveal(step);
            reveal(lawful);
            let paid = if let Ok(paid) = result {
                paid
            } else {
                Ok(0)
            };
            if result is Ok {
                if payable(old(self)@, a as int, b as int, amount) {
                    crate::script::lemma_pay_succeeds(
                        old(self)@,
                        a as int,
                        b as int,
                        amount,
                        paid,
                        self@,
                    );
                }
            }
            crate::script::lemma_made(
                t,
                Chance { nonce: arbitrary(), result: paid, after: self@ },
            );
        }
        match result {
            Ok(Ok(_)) => Ok(()),
            Ok(Err(error)) => Err(Failure::Refused { what, error }),
            Err(failure) => Err(failure),
        }
    }

    /// The balance of a device.
    fn balance(&self, a: usize) -> (r: u64)
        requires
            a < self@.devices.len(),
        ensures
            r == self@.devices[a as int].balance,
    {
        proof {
            assert(self@.devices[a as int] == self.devices@[a as int]@);
        }
        self.devices[a].balance()
    }

    /// Fails unless a device has this balance.
    fn expect_balance(
        &self,
        Ghost(t): Ghost<Track>,
        a: usize,
        cents: u64,
        what: &'static str,
        show: bool,
    ) -> (r: Result<(), Failure>)
        requires
            a < self@.devices.len(),
            due(t, Move::Balance { device: a as int, cents, what, show }, self@),
        ensures
            r is Ok <==> self@.devices[a as int].balance == cents,
            r is Ok ==> on_track(t.onward(self@)),
            r matches Err(failure) ==> plays(t.before, t.moves, Err(failure@), self@),
    {
        let found: u64 = self.balance(a);
        proof {
            reveal(step);
            crate::script::lemma_plain(t);
        }
        if found == cents {
            Ok(())
        } else if show {
            Err(Failure::WrongAmount { what, cents: found })
        } else {
            Err(Failure::Wrong { what })
        }
    }
}

impl World {
    /// Fails unless this much value is on all devices.
    fn expect_value(&self, Ghost(t): Ghost<Track>, cents: u128) -> (r: Result<(), Failure>)
        requires
            due(t, Move::ValueIs { value: cents as nat }, self@),
        ensures
            r is Ok <==> value_on(self@.devices) == cents,
            r is Ok ==> on_track(t.onward(self@)),
            r matches Err(failure) ==> plays(t.before, t.moves, Err(failure@), self@),
    {
        let found: u128 = crate::harness::value_on_devices(self);
        proof {
            reveal(step);
            crate::script::lemma_plain(t);
        }
        if found == cents {
            Ok(())
        } else {
            Err(Failure::NotConserved { value: found })
        }
    }

    /// Fails unless the float is what was noted.
    fn expect_same_float(&self, Ghost(t): Ghost<Track>, float: i128) -> (r: Result<(), Failure>)
        requires
            due(t, Move::SameFloat, self@),
            t.stage.float == float,
        ensures
            r is Ok <==> self@.issuer.float == float,
            r is Ok ==> on_track(t.onward(self@)),
            r matches Err(failure) ==> plays(t.before, t.moves, Err(failure@), self@),
    {
        proof {
            reveal(step);
            crate::script::lemma_plain(t);
        }
        if self.issuer.offline_float() == float {
            Ok(())
        } else {
            Err(Failure::Wrong { what: "the issuer's view changed during offline payments" })
        }
    }

    /// Fails if a device keeps a reservation.
    fn expect_no_reservation(&self, Ghost(t): Ghost<Track>, a: usize) -> (r: Result<(), Failure>)
        requires
            self@.well_formed(),
            a < self@.devices.len(),
            due(t, Move::NoReservation { device: a as int }, self@),
        ensures
            r is Ok <==> self@.devices[a as int].reserved() == 0,
            r is Ok ==> on_track(t.onward(self@)),
            r matches Err(failure) ==> plays(t.before, t.moves, Err(failure@), self@),
    {
        proof {
            assert(self@.devices[a as int] == self.devices@[a as int]@);
            reveal(step);
            crate::script::lemma_plain(t);
        }
        if self.devices[a].reserved() == 0 {
            Ok(())
        } else {
            Err(Failure::Wrong { what: "payee kept a reservation for a dead request" })
        }
    }

    /// Fails unless two devices hold this much between them.
    fn expect_both(
        &self,
        Ghost(t): Ghost<Track>,
        a: usize,
        b: usize,
        cents: u128,
        what: &'static str,
    ) -> (r: Result<(), Failure>)
        requires
            a < self@.devices.len(),
            b < self@.devices.len(),
            due(
                t,
                Move::BothHold { first: a as int, second: b as int, total: cents as nat, what },
                self@,
            ),
        ensures
            r is Ok <==> self@.devices[a as int].balance + self@.devices[b as int].balance
                == cents,
            r is Ok ==> on_track(t.onward(self@)),
            r matches Err(failure) ==> plays(t.before, t.moves, Err(failure@), self@),
    {
        proof {
            reveal(step);
            crate::script::lemma_plain(t);
        }
        if self.balance(a) as u128 + self.balance(b) as u128 == cents {
            Ok(())
        } else {
            Err(Failure::Wrong { what })
        }
    }

    /// The issuer has to cash an order over this amount.
    fn must_cash(&mut self, Ghost(t): Ghost<Track>, order: &Defunding, amount: u64) -> (r: Result<
        (),
        Failure,
    >)
        requires
            old(self)@.issuer.well_formed(),
            due(t, Move::Cash { amount }, old(self)@),
            t.stage.order == Some(order@),
        ensures
            final(self)@.issuer.well_formed(),
            r is Ok <==> old(self)@.issuer.defund_error(order@) is None && order@.amount_cents
                == amount,
            final(self)@ == presented(old(self)@, order@),
            r is Ok ==> on_track(t.onward(final(self)@)),
            r matches Err(failure) ==> plays(t.before, t.moves, Err(failure@), final(self)@),
    {
        let result: Result<u64, Error> = self.issuer.defund(order);
        proof {
            assert(self@.devices =~= old(self)@.devices);
            reveal(step);
            crate::script::lemma_plain(t);
        }
        match result {
            Ok(cashed) => {
                if cashed == amount {
                    Ok(())
                } else {
                    Err(Failure::Wrong { what: "defunding refused" })
                }
            },
            Err(_) => Err(Failure::Wrong { what: "defunding refused" }),
        }
    }

    /// The issuer has to reject an order as cashed before.
    fn reject_cashed(&mut self, Ghost(t): Ghost<Track>, order: &Defunding) -> (r: Result<
        (),
        Failure,
    >)
        requires
            old(self)@.issuer.well_formed(),
            due(t, Move::CashAgain, old(self)@),
            t.stage.order == Some(order@),
        ensures
            r is Ok <==> old(self)@.issuer.defund_error(order@) == Some(Error::Replay),
            r is Ok ==> final(self)@ == old(self)@ && on_track(t.onward(final(self)@)),
            r matches Err(failure) ==> plays(t.before, t.moves, Err(failure@), final(self)@),
    {
        let result: Result<u64, Error> = self.issuer.defund(order);
        proof {
            assert(self@.devices =~= old(self)@.devices);
            reveal(step);
            crate::script::lemma_plain(t);
        }
        match result {
            Err(Error::Replay) => Ok(()),
            _ => Err(Failure::Wrong { what: "a defunding order was cashed twice" }),
        }
    }
}

// ---------------------------------------------------------------------------
// Scenarios
// ---------------------------------------------------------------------------

/// Pay 6 EUR out of 10 EUR, keep the 4 EUR, and spend them too.
pub open spec fn partial_script() -> Seq<Move> {
    seq![
        Move::Fund { device: 0, amount: 1000 },
        Move::Pay { payer: 0, payee: 1, amount: 600, what: "6 \u{20ac} payment failed: " },
        Move::Balance {
            device: 0,
            cents: 400,
            what: "Alice should keep 4 \u{20ac}, has ",
            show: true,
        },
        Move::Balance { device: 1, cents: 600, what: "bakery should hold 6 \u{20ac}", show: false },
        Move::Pay {
            payer: 0,
            payee: 2,
            amount: 400,
            what: "spending the 4 \u{20ac} left failed: ",
        },
        Move::Balance { device: 0, cents: 0, what: "Alice should be empty", show: false },
        Move::Balance { device: 2, cents: 400, what: "kiosk should hold 4 \u{20ac}", show: false },
    ]
}

/// A world in which the partial payment has to go through.
pub open spec fn partial_owed(w: WorldView) -> bool {
    &&& pristine(w)
    &&& limit_of(w, 0) >= 1000
    &&& limit_of(w, 1) >= 600
    &&& limit_of(w, 2) >= 400
    &&& funds(w, 0) >= 1000
}

/// Pay 6 EUR out of 10 EUR, keep the 4 EUR, and spend them too.
pub fn partial_payment_keeps_the_rest(w: &mut World) -> (r: Result<(), Failure>)
    requires
        old(w)@.well_formed(),
        old(w)@.devices.len() >= 3,
    ensures
        final(w)@.well_formed(),
        plays(old(w)@, partial_script(), shown(r), final(w)@),
        r is Ok ==> {
            &&& final(w)@.devices[0].balance == 0
            &&& final(w)@.devices[1].balance == 600
            &&& final(w)@.devices[2].balance == 400
        },
        partial_owed(old(w)@) ==> r is Ok,
{
    let ghost t = first(w@, partial_script());
    proof {
        crate::script::lemma_begin(w@, partial_script());
    }
    w.must_fund(Ghost(t), 0, 1000)?;
    let ghost t = t.onward(w@);
    w.must_pay(Ghost(t), 0, 1, 600, "6 \u{20ac} payment failed: ")?;
    let ghost t = t.onward(w@);
    w.expect_balance(Ghost(t), 0, 400, "Alice should keep 4 \u{20ac}, has ", true)?;
    let ghost t = t.onward(w@);
    w.expect_balance(Ghost(t), 1, 600, "bakery should hold 6 \u{20ac}", false)?;
    let ghost t = t.onward(w@);
    w.must_pay(Ghost(t), 0, 2, 400, "spending the 4 \u{20ac} left failed: ")?;
    let ghost t = t.onward(w@);
    w.expect_balance(Ghost(t), 0, 0, "Alice should be empty", false)?;
    let ghost t = t.onward(w@);
    w.expect_balance(Ghost(t), 2, 400, "kiosk should hold 4 \u{20ac}", false)?;
    let ghost t = t.onward(w@);
    proof {
        assert(on_track(t));
    }
    Ok(())
}

/// Money received offline goes from hand to hand, still offline.
pub open spec fn respending_script() -> Seq<Move> {
    seq![
        Move::Fund { device: 0, amount: 1000 },
        Move::NoteFloat,
        Move::Pay { payer: 0, payee: 1, amount: 600, what: "" },
        Move::Pay { payer: 1, payee: 2, amount: 500, what: "bakery could not re-spend: " },
        Move::Pay { payer: 2, payee: 0, amount: 200, what: "supplier could not re-spend: " },
        Move::ValueIs { value: 1000 },
        Move::SameFloat,
    ]
}

/// A world in which money has to go from hand to hand, unless the first device
/// draws for its second request the nonce of its first.
pub open spec fn respending_owed(w: WorldView) -> bool {
    &&& pristine(w)
    &&& limit_of(w, 0) >= 1000
    &&& limit_of(w, 1) >= 600
    &&& limit_of(w, 2) >= 500
    &&& funds(w, 0) >= 1000
}

/// Money received offline can be paid on at once, still offline.
#[verifier::rlimit(60)]
pub fn received_value_is_respendable(w: &mut World) -> (r: Result<(), Failure>)
    requires
        old(w)@.well_formed(),
        old(w)@.devices.len() >= 3,
    ensures
        final(w)@.well_formed(),
        plays(old(w)@, respending_script(), shown(r), final(w)@),
        r is Ok ==> value_on(final(w)@.devices) == 1000,
        respending_owed(old(w)@) ==> r is Ok || shown(r) == Err::<(), FailureView>(
            FailureView::Refused {
                what: "supplier could not re-spend: ",
                error: Error::AlreadyCredited,
            },
        ),
{
    let ghost t = first(w@, respending_script());
    proof {
        crate::script::lemma_begin(w@, respending_script());
        if respending_owed(w@) {
            crate::script::lemma_nothing_on_devices(w@);
        }
    }
    w.must_fund(Ghost(t), 0, 1000)?;
    let ghost t = t.onward(w@);
    let ghost w1 = w@;
    let float: i128 = w.issuer.offline_float();
    proof {
        assert(on_track(t.to(StageView { float, ..t.stage }))) by {
            reveal(step);
            crate::script::lemma_plain(t);
        }
    }
    let ghost t = t.to(StageView { float, ..t.stage });
    w.must_pay(Ghost(t), 0, 1, 600, "")?;
    let ghost t = t.onward(w@);
    let ghost w2 = w@;
    w.must_pay(Ghost(t), 1, 2, 500, "bakery could not re-spend: ")?;
    let ghost t = t.onward(w@);
    let ghost w3 = w@;
    w.must_pay(Ghost(t), 2, 0, 200, "supplier could not re-spend: ")?;
    let ghost t = t.onward(w@);
    proof {
        if respending_owed(old(w)@) {
            crate::harness::lemma_value_update(old(w)@.devices, 0, w1.devices[0]);
            crate::script::lemma_payment_keeps_value(w1, 0, 1, 600, w2);
            crate::script::lemma_payment_keeps_value(w2, 1, 2, 500, w3);
            crate::script::lemma_payment_keeps_value(w3, 2, 0, 200, w@);
        }
    }
    w.expect_value(Ghost(t), 1000)?;
    let ghost t = t.onward(w@);
    w.expect_same_float(Ghost(t), float)?;
    let ghost t = t.onward(w@);
    proof {
        assert(on_track(t));
    }
    Ok(())
}

/// A certificate for a freshly generated key, signed by a freshly generated issuer.
pub open spec fn made_by_rogue(
    certificate: CertificateView,
    limit: u64,
    issuer: PublicKeyView,
    issuer_exponent: nat,
    device_exponent: nat,
) -> bool {
    &&& crate::signature::generated_key(issuer, issuer_exponent, 512)
    &&& crate::signature::generated_key(certificate.public_key, device_exponent, 512)
    &&& certificate.holding_limit_cents == limit
    &&& certificate.signature == crate::signature::signature_value(
        issuer.n,
        issuer_exponent,
        crate::certificate::certificate_digest(certificate.device, certificate.public_key, limit),
    )
}

/// A certificate by some freshly generated issuer.
pub open spec fn rogue(certificate: CertificateView, limit: u64) -> bool {
    exists|issuer: PublicKeyView, issuer_exponent: nat, device_exponent: nat| #[trigger]
        made_by_rogue(certificate, limit, issuer, issuer_exponent, device_exponent)
}

/// The seed of the generator that a rogue issuer is made with.
pub fn rogue_seed(seed: u64) -> (r: u64)
    ensures
        r == seed ^ 0x0bad,
{
    seed ^ 0x0bad
}

/// A certificate by an issuer that nobody trusts.
pub fn rogue_certificate(cfg: &Config) -> (r: Result<DeviceCertificate, Error>)
    ensures
        r matches Ok(certificate) ==> rogue(certificate@, cfg.limit),
        r matches Err(error) ==> error == Error::EntropyExhausted,
{
    let mut rng: StdRng = crate::random::seeded(rogue_seed(cfg.seed));
    let issuer_key: Keypair = match Keypair::generate(512, &mut rng) {
        Ok(key) => key,
        Err(error) => {
            return Err(error);
        },
    };
    let mut rogue: Issuer = Issuer::new(issuer_key);
    let ghost issuer = rogue@;
    let account: AccountId = AccountId([0xeeu8; 16]);
    rogue.open_account(account, 0);
    let key: Keypair = match Keypair::generate(512, &mut rng) {
        Ok(key) => key,
        Err(error) => {
            return Err(error);
        },
    };
    let ghost signer = issuer.key;
    let ghost signer_exponent = issuer.private_exponent;
    let certified: Result<DeviceCertificate, Error> = rogue.certify_device(
        account,
        key.public_key(),
        cfg.limit,
        &mut rng,
    );
    proof {
        if certified is Ok {
            assert(made_by_rogue(
                certified->Ok_0@,
                cfg.limit,
                signer,
                signer_exponent,
                key.private_exponent(),
            ));
        }
    }
    certified
}

impl World {
    /// Tries a payment that has to be refused for want of money.
    fn pay_short(&mut self, Ghost(t): Ghost<Track>, a: usize, b: usize, amount: u64) -> (r: Result<
        (),
        Failure,
    >)
        requires
            old(self)@.well_formed(),
            a != b,
            a < old(self)@.devices.len(),
            b < old(self)@.devices.len(),
            due(t, Move::PayShort { payer: a as int, payee: b as int, amount }, old(self)@),
        ensures
            final(self)@.well_formed(),
            final(self)@.devices.len() == old(self)@.devices.len(),
            r is Ok ==> on_track(t.onward(final(self)@)),
            r matches Err(failure) ==> plays(t.before, t.moves, Err(failure@), final(self)@),
            short(old(self)@, a as int, b as int, amount) ==> r is Ok && final(self)@ == old(
                self,
            )@,
    {
        let result: Result<Result<u64, Error>, Failure> = self.try_pay(a, b, amount);
        proof {
            reveal(pay_step);
            reveal(step);
            reveal(lawful);
            let paid = if let Ok(paid) = result {
                paid
            } else {
                Ok(0)
            };
            if result is Ok {
                if short(old(self)@, a as int, b as int, amount) {
                    crate::script::lemma_short_is_refused(
                        old(self)@,
                        a as int,
                        b as int,
                        amount,
                        paid,
                        self@,
                    );
                }
            }
            crate::script::lemma_made(
                t,
                Chance { nonce: arbitrary(), result: paid, after: self@ },
            );
        }
        match result? {
            Err(Error::InsufficientFunds { .. }) => Ok(()),
            other => Err(
                Failure::Unexpected { expected: "InsufficientFunds", got: came(other) },
            ),
        }
    }

    /// Tries a payment that has to be refused for want of room, with so much room
    /// left.
    fn pay_over(
        &mut self,
        Ghost(t): Ghost<Track>,
        a: usize,
        b: usize,
        amount: u64,
        headroom: u64,
    ) -> (r: Result<(), Failure>)
        requires
            old(self)@.well_formed(),
            a != b,
            a < old(self)@.devices.len(),
            b < old(self)@.devices.len(),
            due(
                t,
                Move::PayOver { payer: a as int, payee: b as int, amount, headroom },
                old(self)@,
            ),
        ensures
            final(self)@.well_formed(),
            final(self)@.devices.len() == old(self)@.devices.len(),
            r is Ok ==> on_track(t.onward(final(self)@)),
            r matches Err(failure) ==> plays(t.before, t.moves, Err(failure@), final(self)@),
            over(old(self)@, a as int, b as int, amount, headroom) ==> r is Ok && final(self)@
                == old(self)@,
    {
        let result: Result<Result<u64, Error>, Failure> = self.try_pay(a, b, amount);
        proof {
            reveal(pay_step);
            reveal(step);
            reveal(lawful);
            let paid = if let Ok(paid) = result {
                paid
            } else {
                Ok(0)
            };
            if result is Ok {
                if over(old(self)@, a as int, b as int, amount, headroom) {
                    crate::script::lemma_over_is_refused(
                        old(self)@,
                        a as int,
                        b as int,
                        amount,
                        headroom,
                        paid,
                        self@,
                    );
                }
            }
            crate::script::lemma_made(
                t,
                Chance { nonce: arbitrary(), result: paid, after: self@ },
            );
        }
        match result? {
            Err(Error::HoldingLimitExceeded { headroom: left, .. }) => {
                if left == headroom {
                    Ok(())
                } else {
                    Err(
                        Failure::WrongNumber {
                            what: "headroom reported as ",
                            number: left as i128,
                        },
                    )
                }
            },
            other => Err(
                Failure::Unexpected { expected: "HoldingLimitExceeded", got: came(other) },
            ),
        }
    }

    /// A device asks for a payment.
    fn ask(&mut self, Ghost(t): Ghost<Track>, b: usize, amount: u64) -> (r: Result<
        PaymentRequest,
        Failure,
    >)
        requires
            old(self)@.well_formed(),
            b < old(self)@.devices.len(),
            due(t, Move::Ask { device: b as int, amount }, old(self)@),
        ensures
            final(self)@.well_formed(),
            r is Ok <==> old(self)@.devices[b as int].reservation_error(amount) is None,
            r matches Ok(request) ==> {
                let next = stage_after_ask(t.stage, b as int, amount, request@.nonce);
                &&& on_track(t.to(next))
                &&& next.world == final(self)@
                &&& next.request == Some(request@)
            },
            r matches Err(failure) ==> plays(t.before, t.moves, Err(failure@), final(self)@),
    {
        proof {
            assert(self@.devices[b as int] == self.devices@[b as int]@);
        }
        let result: Result<PaymentRequest, Error> = self.devices[b].request_payment(amount);
        proof {
            assert(self@.devices =~= old(self)@.devices.update(b as int, self.devices@[b as int]@));
            lemma_device_replaced(old(self)@, self@, b as int);
        }
        match result {
            Ok(request) => {
                proof {
                    reveal(step);
                    reveal(lawful);
                    crate::script::lemma_made(
                        t,
                        Chance { nonce: request@.nonce, result: Ok(0), after: self@ },
                    );
                    assert(self@ == put(
                        old(self)@,
                        b as int,
                        old(self)@.devices[b as int].with_request(request@.nonce, amount),
                    ));
                }
                Ok(request)
            },
            Err(error) => {
                proof {
                    reveal(step);
                    crate::script::lemma_plain(t);
                    assert(self@.devices =~= old(self)@.devices);
                }
                Err(Failure::Refused { what: "", error })
            },
        }
    }

    /// A device is handed a request. The outer result is a failure where it cannot
    /// be debited.
    fn hand_request(&mut self, a: usize, request: &PaymentRequest) -> (r: Result<
        Result<Transfer, Error>,
        Failure,
    >)
        requires
            old(self)@.well_formed(),
            a < old(self)@.devices.len(),
        ensures
            final(self)@.well_formed(),
            match r {
                Ok(result) => {
                    &&& old(self)@.devices[a as int].can_debit()
                    &&& final(self)@ == asked(old(self)@, a as int, request@)
                    &&& match result {
                        Ok(transfer) => {
                            &&& old(self)@.devices[a as int].pay_error(request@) is None
                            &&& transfer@ == old(self)@.devices[a as int].transfer_for(request@)
                        },
                        Err(error) => old(self)@.devices[a as int].pay_error(request@) == Some(
                            error,
                        ),
                    }
                },
                Err(failure) => {
                    &&& !old(self)@.devices[a as int].can_debit()
                    &&& failure@ == crate::script::no_debit()
                    &&& final(self)@ == old(self)@
                },
            },
    {
        let checked: Result<(), Failure> = self.check_debit(a);
        if let Err(failure) = checked {
            return Err(failure);
        }
        proof {
            assert(self@.devices[a as int] == self.devices@[a as int]@);
        }
        let result: Result<Transfer, Error> = self.devices[a].pay(request);
        proof {
            assert(self@.devices =~= old(self)@.devices.update(a as int, self.devices@[a as int]@));
            lemma_device_replaced(old(self)@, self@, a as int);
            if result is Err {
                assert(self@.devices =~= old(self)@.devices);
            }
        }
        Ok(result)
    }

    /// A device is handed a request that it must not pay, for want of a
    /// certificate.
    fn answer_uncertified(&mut self, Ghost(t): Ghost<Track>, a: usize, request: &PaymentRequest)
        -> (r: Result<(), Failure>)
        requires
            old(self)@.well_formed(),
            a < old(self)@.devices.len(),
            due(t, Move::AnswerUncertified { device: a as int }, old(self)@),
            t.stage.request == Some(request@),
        ensures
            final(self)@.well_formed(),
            r is Ok ==> on_track(t.onward(final(self)@)) && final(self)@ == old(self)@,
            r matches Err(failure) ==> plays(t.before, t.moves, Err(failure@), final(self)@),
            r is Ok <==> old(self)@.devices[a as int].can_debit() && old(
                self,
            )@.devices[a as int].pay_error(request@) == Some(Error::InvalidCertificate),
    {
        let result: Result<Result<Transfer, Error>, Failure> = self.hand_request(a, request);
        proof {
            reveal(step);
            crate::script::lemma_plain(t);
        }
        match result? {
            Err(Error::InvalidCertificate) => Ok(()),
            other => Err(
                Failure::Unexpected {
                    expected: "InvalidCertificate",
                    got: match other {
                        Ok(transfer) => Got::Paid(transfer),
                        Err(error) => Got::Refused(error),
                    },
                },
            ),
        }
    }

    /// A device pays a request, or says what went wrong.
    fn must_answer(&mut self, Ghost(t): Ghost<Track>, a: usize, request: &PaymentRequest) -> (r:
        Result<Transfer, Failure>)
        requires
            old(self)@.well_formed(),
            a < old(self)@.devices.len(),
            due(t, Move::Answer { device: a as int }, old(self)@),
            t.stage.request == Some(request@),
        ensures
            final(self)@.well_formed(),
            r matches Ok(transfer) ==> {
                let next = stage_after_answer(t.stage, a as int);
                &&& on_track(t.to(next))
                &&& next.world == final(self)@
                &&& next.transfer == Some(transfer@)
            },
            r matches Err(failure) ==> plays(t.before, t.moves, Err(failure@), final(self)@),
            r is Ok <==> old(self)@.devices[a as int].can_debit() && old(
                self,
            )@.devices[a as int].pay_error(request@) is None,
    {
        let result: Result<Result<Transfer, Error>, Failure> = self.hand_request(a, request);
        proof {
            reveal(step);
            crate::script::lemma_plain(t);
        }
        match result? {
            Ok(transfer) => Ok(transfer),
            Err(error) => Err(Failure::Refused { what: "", error }),
        }
    }

    /// A device is handed a transfer.
    fn take(&mut self, b: usize, transfer: &Transfer) -> (r: Result<u64, Error>)
        requires
            old(self)@.well_formed(),
            b < old(self)@.devices.len(),
        ensures
            final(self)@.well_formed(),
            final(self)@ == handed(old(self)@, b as int, transfer@),
            final(self)@.devices.len() == old(self)@.devices.len(),
            match r {
                Ok(amount) => {
                    &&& old(self)@.devices[b as int].receive_error(transfer@) is None
                    &&& amount == transfer@.amount_cents
                },
                Err(error) => old(self)@.devices[b as int].receive_error(transfer@) == Some(error),
            },
    {
        proof {
            assert(self@.devices[b as int] == self.devices@[b as int]@);
        }
        let result: Result<u64, Error> = self.devices[b].receive(transfer);
        proof {
            assert(self@.devices =~= old(self)@.devices.update(b as int, self.devices@[b as int]@));
            lemma_device_replaced(old(self)@, self@, b as int);
            if result is Err {
                assert(self@.devices =~= old(self)@.devices);
            }
        }
        result
    }
}

/// What a payment gave, for a failure to show.
fn came(r: Result<u64, Error>) -> (got: Got)
    ensures
        got@ == crate::script::got_from(r),
{
    match r {
        Ok(cents) => Got::Credited(cents),
        Err(error) => Got::Refused(error),
    }
}

/// A payment without the money for it, and one to a device without a certificate,
/// cost nothing.
pub open spec fn refused_script(rogue: CertificateView) -> Seq<Move> {
    seq![
        Move::Fund { device: 0, amount: 500 },
        Move::PayShort { payer: 0, payee: 1, amount: 600 },
        Move::Balance {
            device: 0,
            cents: 500,
            what: "payer was debited for a refused payment",
            show: false,
        },
        Move::NoReservation { device: 1 },
        Move::Ask { device: 1, amount: 100 },
        Move::SwapPayee { certificate: rogue },
        Move::AnswerUncertified { device: 0 },
        Move::Balance {
            device: 0,
            cents: 500,
            what: "payer paid an uncertified device",
            show: false,
        },
    ]
}

/// A world in which both payments have to be refused.
pub open spec fn refused_owed(w: WorldView, rogue: CertificateView) -> bool {
    &&& pristine(w)
    &&& limit_of(w, 0) >= 500
    &&& limit_of(w, 1) >= 600
    &&& funds(w, 0) >= 500
    &&& !crate::certificate::certificate_valid(rogue, w.issuer.key)
}

/// A payment the payer's element refuses costs neither side anything.
pub fn refused_payment_costs_nothing(w: &mut World, rogue: DeviceCertificate) -> (r: Result<
    (),
    Failure,
>)
    requires
        old(w)@.well_formed(),
        old(w)@.devices.len() >= 2,
    ensures
        final(w)@.well_formed(),
        plays(old(w)@, refused_script(rogue@), shown(r), final(w)@),
        r is Ok ==> final(w)@.devices[0].balance == 500,
        refused_owed(old(w)@, rogue@) ==> r is Ok,
{
    let ghost t = first(w@, refused_script(rogue@));
    proof {
        crate::script::lemma_begin(w@, refused_script(rogue@));
        crate::script::lemma_empty_total();
    }
    w.must_fund(Ghost(t), 0, 500)?;
    let ghost t = t.onward(w@);
    w.pay_short(Ghost(t), 0, 1, 600)?;
    let ghost t = t.onward(w@);
    w.expect_balance(Ghost(t), 0, 500, "payer was debited for a refused payment", false)?;
    let ghost t = t.onward(w@);
    w.expect_no_reservation(Ghost(t), 1)?;
    let ghost t = t.onward(w@);
    // A payee whose certificate the Eurosystem never signed gets nothing.
    let mut request: PaymentRequest = w.ask(Ghost(t), 1, 100)?;
    let ghost t = t.to(stage_after_ask(t.stage, 1, 100, request@.nonce));
    request.payee = rogue;
    proof {
        assert(on_track(t.to(StageView { request: Some(request@), ..t.stage }))) by {
            reveal(step);
            crate::script::lemma_plain(t);
        }
    }
    let ghost t = t.to(StageView { request: Some(request@), ..t.stage });
    w.answer_uncertified(Ghost(t), 0, &request)?;
    let ghost t = t.onward(w@);
    w.expect_balance(Ghost(t), 0, 500, "payer paid an uncertified device", false)?;
    let ghost t = t.onward(w@);
    proof {
        assert(on_track(t));
    }
    Ok(())
}

/// A payment that exceeds the payee's limit is refused, one that reaches it is not.
pub open spec fn holding_script(limit: u64) -> Seq<Move> {
    seq![
        Move::Fund { device: 0, amount: limit },
        Move::Fund { device: 1, amount: (limit - 100) as u64 },
        Move::PayOver { payer: 0, payee: 1, amount: 200, headroom: 100 },
        Move::Balance { device: 0, cents: limit, what: "payer was debited anyway", show: false },
        Move::Pay {
            payer: 0,
            payee: 1,
            amount: 100,
            what: "payment within headroom refused: ",
        },
        Move::Balance {
            device: 1,
            cents: limit,
            what: "bakery should now be exactly at its limit",
            show: false,
        },
    ]
}

/// A world in which the holding limit has to be found enforced, unless a nonce is
/// drawn twice.
pub open spec fn holding_owed(w: WorldView, limit: u64) -> bool {
    &&& pristine(w)
    &&& limit > 100
    &&& limit_of(w, 0) == limit
    &&& limit_of(w, 1) == limit
    &&& w.accounts[0] != w.accounts[1]
    &&& funds(w, 0) >= limit
    &&& funds(w, 1) >= limit - 100
}

/// The payee's holding limit is enforced before the payer is debited.
pub fn holding_limit_checked_before_debit(w: &mut World, limit: u64) -> (r: Result<(), Failure>)
    requires
        old(w)@.well_formed(),
        old(w)@.devices.len() >= 2,
        limit >= 100,
    ensures
        final(w)@.well_formed(),
        plays(old(w)@, holding_script(limit), shown(r), final(w)@),
        r is Ok ==> final(w)@.devices[1].balance == limit,
        holding_owed(old(w)@, limit) ==> {
            ||| r is Ok
            ||| shown(r) == Err::<(), FailureView>(
                FailureView::Refused { what: "", error: Error::Replay },
            )
            ||| shown(r) == Err::<(), FailureView>(
                FailureView::Refused {
                    what: "payment within headroom refused: ",
                    error: Error::AlreadyCredited,
                },
            )
        },
{
    let ghost t = first(w@, holding_script(limit));
    proof {
        crate::script::lemma_begin(w@, holding_script(limit));
        crate::script::lemma_empty_total();
        if holding_owed(w@, limit) {
            crate::script::lemma_accounts_apart(w@, 0, 1);
        }
    }
    w.must_fund(Ghost(t), 0, limit)?;
    let ghost t = t.onward(w@);
    w.must_fund(Ghost(t), 1, limit - 100)?;
    let ghost t = t.onward(w@);
    w.pay_over(Ghost(t), 0, 1, 200, 100)?;
    let ghost t = t.onward(w@);
    w.expect_balance(Ghost(t), 0, limit, "payer was debited anyway", false)?;
    let ghost t = t.onward(w@);
    w.must_pay(Ghost(t), 0, 1, 100, "payment within headroom refused: ")?;
    let ghost t = t.onward(w@);
    w.expect_balance(Ghost(t), 1, limit, "bakery should now be exactly at its limit", false)?;
    let ghost t = t.onward(w@);
    proof {
        assert(on_track(t));
    }
    Ok(())
}

/// A transfer is tampered with in two ways, taken, and taken again.
pub open spec fn tampering_script() -> Seq<Move> {
    seq![
        Move::Fund { device: 0, amount: 1000 },
        Move::Ask { device: 1, amount: 600 },
        Move::Answer { device: 0 },
        Move::TakeInflated { device: 1, cents: 6000 },
        Move::TakeRedirected { device: 2 },
        Move::Take { device: 1, cents: 600 },
        Move::TakeAgain { device: 1 },
        Move::Balance { device: 1, cents: 600, what: "payee credited more than once", show: false },
    ]
}

/// A world in which the genuine transfer has to be credited once, and the two
/// others rejected unless they hash alike.
pub open spec fn tampering_owed(w: WorldView) -> bool {
    &&& pristine(w)
    &&& limit_of(w, 0) >= 1000
    &&& limit_of(w, 1) >= 600
    &&& funds(w, 0) >= 1000
}

/// A key verifies the signature on one transfer for another one too.
pub open spec fn hash_alike(
    key: PublicKeyView,
    genuine: TransferView,
    other: TransferView,
) -> bool {
    crate::signature::signature_valid(
        key,
        crate::message::transfer_digest(
            other.payer.device,
            other.payee,
            other.amount_cents,
            other.nonce@,
            other.counter,
        ),
        genuine.signature,
    )
}

/// A transfer was not rejected because it hashes like a genuine one of the payer.
#[verifier::opaque]
pub open spec fn excused(failure: FailureView, key: PublicKeyView, other: WalletView) -> bool {
    ||| {
        &&& failure == (FailureView::Wrong { what: "an inflated transfer was not rejected" })
        &&& exists|genuine: TransferView| #[trigger]
            hash_alike(key, genuine, inflated(genuine, 6000))
    }
    ||| {
        &&& failure == (FailureView::Wrong { what: "a redirected transfer was not rejected" })
        &&& exists|genuine: TransferView| #[trigger]
            hash_alike(key, genuine, redirected(genuine, other))
    }
}

impl World {
    /// A device has to reject a transfer with another amount.
    fn reject_inflated(&mut self, Ghost(t): Ghost<Track>, b: usize, transfer: &Transfer, cents: u64)
        -> (r: Result<(), Failure>)
        requires
            old(self)@.well_formed(),
            b < old(self)@.devices.len(),
            due(t, Move::TakeInflated { device: b as int, cents }, old(self)@),
            t.stage.transfer == Some(transfer@),
        ensures
            final(self)@.well_formed(),
            r is Ok <==> old(self)@.devices[b as int].receive_error(inflated(transfer@, cents))
                == Some(Error::InvalidSignature),
            r is Ok ==> on_track(t.onward(final(self)@)) && final(self)@ == old(self)@,
            r matches Err(failure) ==> plays(t.before, t.moves, Err(failure@), final(self)@)
                && failure@ == (FailureView::Wrong {
                what: "an inflated transfer was not rejected",
            }),
    {
        let mut raised: Transfer = transfer.clone();
        raised.amount_cents = cents;
        proof {
            reveal(step);
            crate::script::lemma_plain(t);
            assert(raised@ == inflated(transfer@, cents));
        }
        match self.take(b, &raised) {
            Err(Error::InvalidSignature) => Ok(()),
            _ => Err(Failure::Wrong { what: "an inflated transfer was not rejected" }),
        }
    }

    /// A device has to reject a transfer readdressed to itself.
    fn reject_redirected(&mut self, Ghost(t): Ghost<Track>, b: usize, transfer: &Transfer) -> (r:
        Result<(), Failure>)
        requires
            old(self)@.well_formed(),
            b < old(self)@.devices.len(),
            due(t, Move::TakeRedirected { device: b as int }, old(self)@),
            t.stage.transfer == Some(transfer@),
        ensures
            final(self)@.well_formed(),
            r is Ok <==> old(self)@.devices[b as int].receive_error(
                redirected(transfer@, old(self)@.devices[b as int]),
            ) == Some(Error::InvalidSignature),
            r is Ok ==> on_track(t.onward(final(self)@)) && final(self)@ == old(self)@,
            r matches Err(failure) ==> plays(t.before, t.moves, Err(failure@), final(self)@)
                && failure@ == (FailureView::Wrong {
                what: "a redirected transfer was not rejected",
            }),
    {
        proof {
            assert(self@.devices[b as int] == self.devices@[b as int]@);
            reveal(step);
            crate::script::lemma_plain(t);
        }
        let mut readdressed: Transfer = transfer.clone();
        readdressed.payee = self.devices[b].device();
        proof {
            assert(readdressed@ == redirected(transfer@, self@.devices[b as int]));
        }
        match self.take(b, &readdressed) {
            Err(Error::InvalidSignature) => Ok(()),
            _ => Err(Failure::Wrong { what: "a redirected transfer was not rejected" }),
        }
    }

    /// A device has to credit a transfer of this amount.
    fn must_take(
        &mut self,
        Ghost(t): Ghost<Track>,
        b: usize,
        transfer: &Transfer,
        cents: u64,
    ) -> (r:
        Result<(), Failure>)
        requires
            old(self)@.well_formed(),
            b < old(self)@.devices.len(),
            due(t, Move::Take { device: b as int, cents }, old(self)@),
            t.stage.transfer == Some(transfer@),
        ensures
            final(self)@.well_formed(),
            r is Ok <==> old(self)@.devices[b as int].receive_error(transfer@) is None
                && transfer@.amount_cents == cents,
            r is Ok ==> on_track(t.onward(final(self)@)) && final(self)@ == put(
                old(self)@,
                b as int,
                old(self)@.devices[b as int].received(transfer@),
            ),
            r matches Err(failure) ==> plays(t.before, t.moves, Err(failure@), final(self)@),
    {
        proof {
            reveal(step);
            crate::script::lemma_plain(t);
        }
        match self.take(b, transfer) {
            Ok(credited) => {
                if credited == cents {
                    Ok(())
                } else {
                    Err(Failure::Wrong { what: "the genuine transfer was not credited" })
                }
            },
            Err(_) => Err(Failure::Wrong { what: "the genuine transfer was not credited" }),
        }
    }

    /// A device has to reject a transfer that it has credited.
    fn reject_replayed(&mut self, Ghost(t): Ghost<Track>, b: usize, transfer: &Transfer) -> (r:
        Result<(), Failure>)
        requires
            old(self)@.well_formed(),
            b < old(self)@.devices.len(),
            due(t, Move::TakeAgain { device: b as int }, old(self)@),
            t.stage.transfer == Some(transfer@),
        ensures
            final(self)@.well_formed(),
            r is Ok <==> old(self)@.devices[b as int].receive_error(transfer@) == Some(
                Error::AlreadyCredited,
            ),
            r is Ok ==> on_track(t.onward(final(self)@)) && final(self)@ == old(self)@,
            r matches Err(failure) ==> plays(t.before, t.moves, Err(failure@), final(self)@),
    {
        proof {
            reveal(step);
            crate::script::lemma_plain(t);
        }
        match self.take(b, transfer) {
            Err(Error::AlreadyCredited) => Ok(()),
            _ => Err(Failure::Wrong { what: "a replayed transfer was not refused" }),
        }
    }
}

/// A transfer that was tampered with is rejected for its signature, unless it hashes
/// like the genuine one.
proof fn lemma_tampering(
    payer: WalletView,
    payee: WalletView,
    other: WalletView,
    request: PaymentRequestView,
)
    requires
        payer.well_formed(),
        payer.issuer == payee.issuer,
        payer.issuer == other.issuer,
        request.payee.device == payee.certificate.device,
    ensures
        payee.receive_error(inflated(payer.transfer_for(request), 6000)) != Some(
            Error::InvalidSignature,
        ) ==> excused(
            FailureView::Wrong { what: "an inflated transfer was not rejected" },
            payer.key,
            other,
        ),
        other.receive_error(redirected(payer.transfer_for(request), other)) != Some(
            Error::InvalidSignature,
        ) ==> excused(
            FailureView::Wrong { what: "a redirected transfer was not rejected" },
            payer.key,
            other,
        ),
{
    reveal(excused);
    let genuine = payer.transfer_for(request);
    if payee.receive_error(inflated(genuine, 6000)) != Some(Error::InvalidSignature) {
        assert(hash_alike(payer.key, genuine, inflated(genuine, 6000)));
    }
    if other.receive_error(redirected(genuine, other)) != Some(Error::InvalidSignature) {
        assert(hash_alike(payer.key, genuine, redirected(genuine, other)));
    }
}

/// Replaying or tampering with a transfer gains nothing.
pub fn transfers_resist_replay_and_tampering(w: &mut World) -> (r: Result<(), Failure>)
    requires
        old(w)@.well_formed(),
        old(w)@.devices.len() >= 3,
    ensures
        final(w)@.well_formed(),
        plays(old(w)@, tampering_script(), shown(r), final(w)@),
        r is Ok ==> final(w)@.devices[1].balance == 600,
        tampering_owed(old(w)@) ==> match r {
            Ok(_) => true,
            Err(failure) => excused(failure@, old(w)@.devices[0].key, old(w)@.devices[2]),
        },
{
    let ghost t = first(w@, tampering_script());
    let ghost owed = tampering_owed(w@);
    proof {
        crate::script::lemma_begin(w@, tampering_script());
        crate::script::lemma_empty_total();
    }
    w.must_fund(Ghost(t), 0, 1000)?;
    let ghost t = t.onward(w@);
    let request: PaymentRequest = w.ask(Ghost(t), 1, 600)?;
    let ghost t = t.to(stage_after_ask(t.stage, 1, 600, request@.nonce));
    let ghost payer = w@.devices[0];
    proof {
        assert(device_key(w@.devices[0]) != device_key(w@.devices[1]));
        assert(device_key(w@.devices[0]) != device_key(w@.devices[2]));
        if owed {
            assert(payer.pay_error(request@) is None);
        }
    }
    let transfer: Transfer = w.must_answer(Ghost(t), 0, &request)?;
    let ghost t = t.to(stage_after_answer(t.stage, 0));
    let ghost payee = w@.devices[1];
    proof {
        if owed {
            crate::wallet::lemma_paid_transfer_is_credited(payer, payee, request@);
            lemma_tampering(payer, payee, w@.devices[2], request@);
            assert(payer.key == old(w)@.devices[0].key);
            assert(w@.devices[2] == old(w)@.devices[2]);
        }
    }
    w.reject_inflated(Ghost(t), 1, &transfer, 6000)?;
    let ghost t = t.onward(w@);
    w.reject_redirected(Ghost(t), 2, &transfer)?;
    let ghost t = t.onward(w@);
    w.must_take(Ghost(t), 1, &transfer, 600)?;
    let ghost t = t.onward(w@);
    proof {
        crate::wallet::lemma_replayed_transfer_is_refused(payee, w@.devices[1], transfer@);
    }
    w.reject_replayed(Ghost(t), 1, &transfer)?;
    let ghost t = t.onward(w@);
    w.expect_balance(Ghost(t), 1, 600, "payee credited more than once", false)?;
    let ghost t = t.onward(w@);
    proof {
        assert(on_track(t));
    }
    Ok(())
}

impl World {
    /// A device signs an order to credit its account.
    fn order(&mut self, Ghost(t): Ghost<Track>, a: usize, amount: u64) -> (r: Result<
        Defunding,
        Failure,
    >)
        requires
            old(self)@.well_formed(),
            a < old(self)@.devices.len(),
            due(t, Move::Order { device: a as int, amount }, old(self)@),
        ensures
            final(self)@.well_formed(),
            r is Ok <==> old(self)@.devices[a as int].can_debit() && old(
                self,
            )@.devices[a as int].debit_error(amount) is None,
            r matches Ok(order) ==> {
                let next = stage_after_order(t.stage, a as int, amount);
                &&& on_track(t.to(next))
                &&& next.world == final(self)@
                &&& next.order == Some(order@)
            },
            r matches Err(failure) ==> plays(t.before, t.moves, Err(failure@), final(self)@),
    {
        let checked: Result<(), Failure> = self.check_debit(a);
        if let Err(failure) = checked {
            proof {
                reveal(step);
                crate::script::lemma_plain(t);
            }
            return Err(failure);
        }
        proof {
            assert(self@.devices[a as int] == self.devices@[a as int]@);
            reveal(step);
            crate::script::lemma_plain(t);
        }
        let result: Result<Defunding, Error> = self.devices[a].defund(amount);
        proof {
            assert(self@.devices =~= old(self)@.devices.update(a as int, self.devices@[a as int]@));
            lemma_device_replaced(old(self)@, self@, a as int);
            if result is Err {
                assert(self@.devices =~= old(self)@.devices);
            }
        }
        match result {
            Ok(order) => Ok(order),
            Err(error) => Err(Failure::Refused { what: "", error }),
        }
    }

    /// Fails unless the account at a place has this balance.
    fn expect_account(
        &self,
        Ghost(t): Ghost<Track>,
        place: usize,
        cents: u64,
        what: &'static str,
        show: bool,
    ) -> (r: Result<(), Failure>)
        requires
            place < self@.accounts.len(),
            due(t, Move::AccountHolds { place: place as int, cents, what, show }, self@),
        ensures
            r is Ok <==> crate::harness::account_balance(
                self@.issuer,
                self@.accounts[place as int],
            ) == Some(cents),
            r is Ok ==> on_track(t.onward(self@)),
            r matches Err(failure) ==> plays(t.before, t.moves, Err(failure@), self@),
    {
        proof {
            reveal(step);
            crate::script::lemma_plain(t);
        }
        let holds: Option<u64> = self.issuer.balance_of(&self.accounts[place]);
        let right: bool = match holds {
            Some(balance) => balance == cents,
            None => false,
        };
        if right {
            Ok(())
        } else if show {
            Err(Failure::WrongAccount { what, holds })
        } else {
            Err(Failure::Wrong { what })
        }
    }

    /// Fails unless this is the float.
    fn expect_float(
        &self,
        Ghost(t): Ghost<Track>,
        float: i128,
        what: &'static str,
        show: bool,
    ) -> (r: Result<(), Failure>)
        requires
            due(t, Move::FloatIs { float, what, show }, self@),
        ensures
            r is Ok <==> self@.issuer.float == float,
            r is Ok ==> on_track(t.onward(self@)),
            r matches Err(failure) ==> plays(t.before, t.moves, Err(failure@), self@),
    {
        proof {
            reveal(step);
            crate::script::lemma_plain(t);
        }
        let found: i128 = self.issuer.offline_float();
        if found == float {
            Ok(())
        } else if show {
            Err(Failure::WrongNumber { what, number: found })
        } else {
            Err(Failure::Wrong { what })
        }
    }
}

/// Value is funded, part of it defunded, and the order presented again.
pub open spec fn defunding_script() -> Seq<Move> {
    seq![
        Move::Fund { device: 0, amount: 3000 },
        Move::Order { device: 0, amount: 1200 },
        Move::Cash { amount: 1200 },
        Move::CashAgain,
        Move::AccountHolds {
            place: 0,
            cents: 8200,
            what: "account should hold 82 \u{20ac}, holds ",
            show: true,
        },
        Move::FloatIs { float: 1800, what: "float should be 18 \u{20ac}", show: false },
    ]
}

/// A world in which the round trip has to succeed.
pub open spec fn defunding_owed(w: WorldView) -> bool {
    &&& pristine(w)
    &&& limit_of(w, 0) >= 3000
    &&& funds(w, 0) == 10000
}

/// Value goes back online, and a defunding order cannot be cashed twice.
pub fn defunding_round_trip(w: &mut World) -> (r: Result<(), Failure>)
    requires
        old(w)@.well_formed(),
        old(w)@.devices.len() >= 1,
    ensures
        plays(old(w)@, defunding_script(), shown(r), final(w)@),
        r is Ok ==> final(w)@.issuer.float == 1800 && crate::harness::account_balance(
            final(w)@.issuer,
            final(w)@.accounts[0],
        ) == Some(8200u64),
        defunding_owed(old(w)@) ==> r is Ok,
{
    let ghost t = first(w@, defunding_script());
    let ghost owed = defunding_owed(w@);
    proof {
        crate::script::lemma_begin(w@, defunding_script());
    }
    w.must_fund(Ghost(t), 0, 3000)?;
    let ghost t = t.onward(w@);
    let ghost funded = w@;
    let order: Defunding = w.order(Ghost(t), 0, 1200)?;
    let ghost t = t.to(stage_after_order(t.stage, 0, 1200));
    proof {
        if owed {
            crate::issuer::lemma_order_is_cashed(funded.devices[0], w@.issuer, 1200);
        }
    }
    w.must_cash(Ghost(t), &order, 1200)?;
    proof {
        crate::issuer::lemma_order_is_cashed_once(t.stage.world.issuer, w@.issuer, order@);
    }
    let ghost t = t.onward(w@);
    w.reject_cashed(Ghost(t), &order)?;
    let ghost t = t.onward(w@);
    w.expect_account(Ghost(t), 0, 8200, "account should hold 82 \u{20ac}, holds ", true)?;
    let ghost t = t.onward(w@);
    w.expect_float(Ghost(t), 1800, "float should be 18 \u{20ac}", false)?;
    let ghost t = t.onward(w@);
    proof {
        assert(on_track(t));
    }
    Ok(())
}

/// A device is funded and lost.
pub open spec fn lost_script() -> Seq<Move> {
    seq![
        Move::Fund { device: 0, amount: 4000 },
        Move::Lose,
        Move::AccountHolds {
            place: 0,
            cents: 6000,
            what: "the account was made whole",
            show: false,
        },
        Move::FloatIs {
            float: 4000,
            what: "the lost value should stay counted as offline",
            show: false,
        },
    ]
}

/// A world in which the lost value has to be found stranded.
pub open spec fn lost_owed(w: WorldView) -> bool {
    &&& pristine(w)
    &&& limit_of(w, 0) >= 4000
    &&& funds(w, 0) == 10000
}

/// No recovery: a lost device takes its balance with it.
pub fn lost_device_strands_its_balance(w: &mut World) -> (r: Result<(), Failure>)
    requires
        old(w)@.well_formed(),
        old(w)@.devices.len() >= 1,
    ensures
        plays(old(w)@, lost_script(), shown(r), final(w)@),
        r is Ok ==> final(w)@.devices.len() == 0 && final(w)@.issuer.float == 4000
            && crate::harness::account_balance(final(w)@.issuer, final(w)@.accounts[0]) == Some(
            6000u64,
        ),
        lost_owed(old(w)@) ==> r is Ok,
{
    let ghost t = first(w@, lost_script());
    proof {
        crate::script::lemma_begin(w@, lost_script());
    }
    w.must_fund(Ghost(t), 0, 4000)?;
    let ghost t = t.onward(w@);
    // Dropped in the river.
    w.devices.clear();
    proof {
        assert(w@.devices =~= Seq::empty());
        assert(on_track(t.onward(w@))) by {
            reveal(step);
            crate::script::lemma_plain(t);
        }
    }
    let ghost t = t.onward(w@);
    w.expect_account(Ghost(t), 0, 6000, "the account was made whole", false)?;
    let ghost t = t.onward(w@);
    w.expect_float(Ghost(t), 4000, "the lost value should stay counted as offline", false)?;
    let ghost t = t.onward(w@);
    proof {
        assert(on_track(t));
    }
    Ok(())
}

impl World {
    /// Cracks a device.
    fn crack(&mut self, Ghost(t): Ghost<Track>, a: usize)
        requires
            old(self)@.well_formed(),
            a < old(self)@.devices.len(),
            due(t, Move::Crack { device: a as int }, old(self)@),
        ensures
            final(self)@.well_formed(),
            final(self)@ == cracked(old(self)@, a as int),
            on_track(t.onward(final(self)@)),
    {
        proof {
            assert(self@.devices[a as int] == self.devices@[a as int]@);
            reveal(step);
            crate::script::lemma_plain(t);
        }
        self.devices[a].crack_secure_element();
        proof {
            assert(self@.devices =~= old(self)@.devices.update(a as int, self.devices@[a as int]@));
            lemma_device_replaced(old(self)@, self@, a as int);
        }
    }

    /// Defunds a device, or says what went wrong.
    fn must_defund(&mut self, Ghost(t): Ghost<Track>, a: usize, amount: u64) -> (r: Result<
        (),
        Failure,
    >)
        requires
            old(self)@.well_formed(),
            a < old(self)@.devices.len(),
            due(t, Move::Defund { device: a as int, amount }, old(self)@),
        ensures
            final(self)@.well_formed(),
            final(self)@.devices.len() == old(self)@.devices.len(),
            r is Ok ==> with_one(old(self)@, final(self)@, a as int),
            r is Ok ==> on_track(t.onward(final(self)@)),
            r matches Err(failure) ==> plays(t.before, t.moves, Err(failure@), final(self)@),
            defundable(old(self)@, a as int, amount) ==> r is Ok && final(self)@ == presented(
                put(old(self)@, a as int, old(self)@.devices[a as int].debited(amount)),
                old(self)@.devices[a as int].order_for(amount),
            ) && old(self)@.issuer.defund_error(
                old(self)@.devices[a as int].order_for(amount),
            ) is None,
    {
        let checked: Result<(), Failure> = self.check_debit(a);
        if let Err(failure) = checked {
            proof {
                reveal(step);
                crate::script::lemma_plain(t);
            }
            return Err(failure);
        }
        let result: Result<u64, Error> = self.defund(a, amount);
        proof {
            let device = old(self)@.devices[a as int];
            if device.debit_error(amount) is Some {
                assert(self@.devices =~= old(self)@.devices);
            } else {
                assert(self@.devices =~= put(
                    old(self)@,
                    a as int,
                    device.debited(amount),
                ).devices);
            }
            reveal(step);
            crate::script::lemma_plain(t);
            if defundable(old(self)@, a as int, amount) {
                crate::issuer::lemma_order_is_cashed(
                    old(self)@.devices[a as int],
                    old(self)@.issuer,
                    amount,
                );
            }
        }
        match result {
            Ok(_) => Ok(()),
            Err(error) => Err(Failure::Refused { what: "defunding refused: ", error }),
        }
    }
}

/// A cracked device pays the same money out twice, and the payees defund it.
pub open spec fn cracked_script() -> Seq<Move> {
    seq![
        Move::Fund { device: 0, amount: 1000 },
        Move::Crack { device: 0 },
        Move::Pay {
            payer: 0,
            payee: 1,
            amount: 1000,
            what: "payee 1 refused a genuine-looking transfer: ",
        },
        Move::Pay {
            payer: 0,
            payee: 2,
            amount: 1000,
            what: "payee 2 refused a genuine-looking transfer: ",
        },
        Move::BothHold {
            first: 1,
            second: 2,
            total: 2000,
            what: "expected 20 \u{20ac} in circulation from 10 \u{20ac} funded",
        },
        Move::Defund { device: 1, amount: 1000 },
        Move::Defund { device: 2, amount: 1000 },
        Move::FloatIs {
            float: (-1000) as i128,
            what: "float should be -10 \u{20ac}, is ",
            show: true,
        },
        Move::Balance {
            device: 0,
            cents: 1000,
            what: "the cracked element should still show its 10 \u{20ac}",
            show: false,
        },
    ]
}

/// A world in which a cracked device has to get away with it.
pub open spec fn cracked_owed(w: WorldView) -> bool {
    &&& pristine(w)
    &&& limit_of(w, 0) >= 1000
    &&& limit_of(w, 1) >= 1000
    &&& limit_of(w, 2) >= 1000
    &&& 1000 <= funds(w, 0)
    &&& funds(w, 1) <= u64::MAX - 2000
    &&& funds(w, 2) <= u64::MAX - 2000
}

/// A cracked element pays out value it does not have. Offline nobody can
/// tell; online it shows up only in aggregate, with no pointer to the source.
#[verifier::rlimit(60)]
pub fn cracked_element_counterfeits(w: &mut World) -> (r: Result<(), Failure>)
    requires
        old(w)@.well_formed(),
        old(w)@.devices.len() >= 3,
    ensures
        final(w)@.well_formed(),
        plays(old(w)@, cracked_script(), shown(r), final(w)@),
        r is Ok ==> {
            &&& final(w)@.issuer.float == -1000
            &&& final(w)@.devices[0].balance == 1000
        },
        cracked_owed(old(w)@) ==> r is Ok,
{
    let ghost t = first(w@, cracked_script());
    proof {
        crate::script::lemma_begin(w@, cracked_script());
    }
    w.must_fund(Ghost(t), 0, 1000)?;
    let ghost t = t.onward(w@);
    w.crack(Ghost(t), 0);
    let ghost t = t.onward(w@);
    w.must_pay(Ghost(t), 0, 1, 1000, "payee 1 refused a genuine-looking transfer: ")?;
    let ghost t = t.onward(w@);
    w.must_pay(Ghost(t), 0, 2, 1000, "payee 2 refused a genuine-looking transfer: ")?;
    let ghost t = t.onward(w@);
    w.expect_both(
        Ghost(t),
        1,
        2,
        2000,
        "expected 20 \u{20ac} in circulation from 10 \u{20ac} funded",
    )?;
    let ghost t = t.onward(w@);
    w.must_defund(Ghost(t), 1, 1000)?;
    let ghost t = t.onward(w@);
    w.must_defund(Ghost(t), 2, 1000)?;
    let ghost t = t.onward(w@);
    w.expect_float(Ghost(t), -1000, "float should be -10 \u{20ac}, is ", true)?;
    let ghost t = t.onward(w@);
    w.expect_balance(
        Ghost(t),
        0,
        1000,
        "the cracked element should still show its 10 \u{20ac}",
        false,
    )?;
    let ghost t = t.onward(w@);
    proof {
        assert(on_track(t));
    }
    Ok(())
}

// ---------------------------------------------------------------------------
// The list of scenarios
// ---------------------------------------------------------------------------

/// The scenarios, in the order in which they are run.
#[derive(Clone, Copy, Debug, PartialEq, Eq)]
pub enum Scenario {
    PartialPayment,
    Respending,
    RefusedPayment,
    HoldingLimit,
    ReplayAndTampering,
    DefundingRoundTrip,
    LostDevice,
    CrackedElement,
}

/// What a scenario is called.
pub open spec fn scenario_name(scenario: Scenario) -> Seq<char> {
    match scenario {
        Scenario::PartialPayment => "pay 6 \u{20ac} of 10 \u{20ac}, keep and spend the 4 \u{20ac}"@,
        Scenario::Respending => "received value is re-spendable offline"@,
        Scenario::RefusedPayment => "refused payment costs nothing"@,
        Scenario::HoldingLimit => "holding limit checked before debit"@,
        Scenario::ReplayAndTampering => "transfers resist replay and tampering"@,
        Scenario::DefundingRoundTrip => "defunding round trip"@,
        Scenario::LostDevice => "lost device strands its balance"@,
        Scenario::CrackedElement => "cracked element counterfeits"@,
    }
}

/// How a scenario ends when it passes.
pub open spec fn scenario_end(scenario: Scenario, limit: u64, w: WorldView) -> bool {
    match scenario {
        Scenario::PartialPayment => w.devices[0].balance == 0 && w.devices[1].balance == 600
            && w.devices[2].balance == 400,
        Scenario::Respending => value_on(w.devices) == 1000,
        Scenario::RefusedPayment => w.devices[0].balance == 500,
        Scenario::HoldingLimit => w.devices[1].balance == limit,
        Scenario::ReplayAndTampering => w.devices[1].balance == 600,
        Scenario::DefundingRoundTrip => w.issuer.float == 1800 && crate::harness::account_balance(
            w.issuer,
            w.accounts[0],
        ) == Some(8200u64),
        Scenario::LostDevice => w.devices.len() == 0 && w.issuer.float == 4000
            && crate::harness::account_balance(w.issuer, w.accounts[0]) == Some(6000u64),
        Scenario::CrackedElement => w.issuer.float == -1000 && w.devices[0].balance == 1000,
    }
}

/// What the accounts of a scenario's world are opened with.
pub open spec fn opening_balances(scenario: Scenario, limit: u64) -> Seq<u64> {
    match scenario {
        Scenario::PartialPayment => seq![10000, 0, 0],
        Scenario::Respending => seq![10000, 0, 0],
        Scenario::RefusedPayment => seq![10000, 0],
        Scenario::HoldingLimit => seq![limit, limit],
        Scenario::ReplayAndTampering => seq![10000, 0, 0],
        Scenario::DefundingRoundTrip => seq![10000],
        Scenario::LostDevice => seq![10000],
        Scenario::CrackedElement => seq![10000, 0, 0],
    }
}

/// The script of a scenario.
pub open spec fn script_of(scenario: Scenario, limit: u64, rogue: CertificateView) -> Seq<Move> {
    match scenario {
        Scenario::PartialPayment => partial_script(),
        Scenario::Respending => respending_script(),
        Scenario::RefusedPayment => refused_script(rogue),
        Scenario::HoldingLimit => holding_script(limit),
        Scenario::ReplayAndTampering => tampering_script(),
        Scenario::DefundingRoundTrip => defunding_script(),
        Scenario::LostDevice => lost_script(),
        Scenario::CrackedElement => cracked_script(),
    }
}

/// A world in which a scenario has to pass, bad luck aside.
pub open spec fn pass_owed(
    scenario: Scenario,
    limit: u64,
    rogue: CertificateView,
    w: WorldView,
) -> bool {
    match scenario {
        Scenario::PartialPayment => partial_owed(w),
        Scenario::Respending => respending_owed(w),
        Scenario::RefusedPayment => refused_owed(w, rogue),
        Scenario::HoldingLimit => holding_owed(w, limit),
        Scenario::ReplayAndTampering => tampering_owed(w),
        Scenario::DefundingRoundTrip => defunding_owed(w),
        Scenario::LostDevice => lost_owed(w),
        Scenario::CrackedElement => cracked_owed(w),
    }
}

/// Bad luck: a nonce was drawn twice, or two transfers hash alike.
pub open spec fn bad_luck(scenario: Scenario, w: WorldView, failure: FailureView) -> bool {
    match scenario {
        Scenario::Respending => failure == (FailureView::Refused {
            what: "supplier could not re-spend: ",
            error: Error::AlreadyCredited,
        }),
        Scenario::HoldingLimit => {
            ||| failure == (FailureView::Refused { what: "", error: Error::Replay })
            ||| failure == (FailureView::Refused {
                what: "payment within headroom refused: ",
                error: Error::AlreadyCredited,
            })
        },
        Scenario::ReplayAndTampering => excused(failure, w.devices[0].key, w.devices[2]),
        _ => false,
    }
}

/// A scenario was played, on a world that was opened for it.
pub open spec fn played(
    scenario: Scenario,
    cfg: Config,
    stranger: CertificateView,
    before: WorldView,
    r: Result<(), FailureView>,
    after: WorldView,
) -> bool {
    &&& before.well_formed()
    &&& before.issuer.key == cfg.issuer_key.verification_key()
    &&& before.issuer.private_exponent == cfg.issuer_key.private_exponent()
    &&& crate::harness::opened(
        before,
        cfg.limit,
        cfg.key_bits,
        opening_balances(scenario, cfg.limit),
    )
    &&& scenario == Scenario::RefusedPayment ==> self::rogue(stranger, cfg.limit)
    &&& plays(before, script_of(scenario, cfg.limit, stranger), r, after)
    &&& pass_owed(scenario, cfg.limit, stranger, before) ==> match r {
        Ok(_) => true,
        Err(failure) => bad_luck(scenario, before, failure),
    }
}

/// The world could not be set up: the randomness gave nothing usable, or the
/// issuer's own certificates do not verify.
pub open spec fn setup_failed(cfg: Config, failure: FailureView) -> bool {
    &&& failure matches FailureView::Setup { error }
    &&& {
        ||| error == Error::EntropyExhausted
        ||| error == Error::InvalidCertificate && !crate::signature::sound_key(
            cfg.issuer_key.verification_key(),
            cfg.issuer_key.private_exponent(),
        )
    }
}

/// The holding limit that a scenario needs to pass.
pub open spec fn limit_needed(scenario: Scenario) -> u64 {
    match scenario {
        Scenario::RefusedPayment => 600,
        Scenario::HoldingLimit => 101,
        Scenario::DefundingRoundTrip => 3000,
        Scenario::LostDevice => 4000,
        _ => 1000,
    }
}

/// In a world that was opened for it, with sound keys, a limit that is high enough
/// and accounts that are all different, a scenario has to pass.
pub proof fn lemma_scenario_has_to_pass(
    scenario: Scenario,
    limit: u64,
    bits: u64,
    rogue: CertificateView,
    w: WorldView,
)
    requires
        w.well_formed(),
        crate::harness::opened(w, limit, bits, opening_balances(scenario, limit)),
        crate::script::sound_keys(w),
        limit >= limit_needed(scenario),
        forall|i: int, j: int|
            0 <= i < w.accounts.len() && 0 <= j < w.accounts.len() && i != j
                ==> #[trigger] w.accounts[i] != #[trigger] w.accounts[j],
        !crate::certificate::certificate_valid(rogue, w.issuer.key),
    ensures
        pass_owed(scenario, limit, rogue, w),
{
    let balances = opening_balances(scenario, limit);
    assert(pristine(w));
    assert forall|i: int| 0 <= i < w.devices.len() implies funds(w, i) == balances[i]
        && #[trigger] limit_of(w, i) == limit by {
        assert(w.devices[i].certificate.holding_limit_cents == limit);
        assert(w.accounts[i] == w.issuer.devices[device_key(w.devices[i])].account);
        assert(forall|j: int| i < j < w.accounts.len() ==> w.accounts[j] != w.accounts[i]);
    }
    assert(w.devices.len() >= 1 && funds(w, 0) == balances[0] && limit_of(w, 0) == limit);
    if w.devices.len() >= 2 {
        assert(funds(w, 1) == balances[1] && limit_of(w, 1) == limit);
    }
    if w.devices.len() >= 3 {
        assert(funds(w, 2) == balances[2] && limit_of(w, 2) == limit);
    }
}

/// The place of a scenario in the order in which they are run.
pub open spec fn scenario_place(scenario: Scenario) -> u64 {
    match scenario {
        Scenario::PartialPayment => 0,
        Scenario::Respending => 1,
        Scenario::RefusedPayment => 2,
        Scenario::HoldingLimit => 3,
        Scenario::ReplayAndTampering => 4,
        Scenario::DefundingRoundTrip => 5,
        Scenario::LostDevice => 6,
        Scenario::CrackedElement => 7,
    }
}

impl Scenario {
    /// All scenarios.
    pub fn all() -> (r: [Scenario; 8])
        ensures
            r@ == seq![
                Scenario::PartialPayment,
                Scenario::Respending,
                Scenario::RefusedPayment,
                Scenario::HoldingLimit,
                Scenario::ReplayAndTampering,
                Scenario::DefundingRoundTrip,
                Scenario::LostDevice,
                Scenario::CrackedElement,
            ],
    {
        let r: [Scenario; 8] = [
            Scenario::PartialPayment,
            Scenario::Respending,
            Scenario::RefusedPayment,
            Scenario::HoldingLimit,
            Scenario::ReplayAndTampering,
            Scenario::DefundingRoundTrip,
            Scenario::LostDevice,
            Scenario::CrackedElement,
        ];
        proof {
            assert(r@ =~= seq![
                Scenario::PartialPayment,
                Scenario::Respending,
                Scenario::RefusedPayment,
                Scenario::HoldingLimit,
                Scenario::ReplayAndTampering,
                Scenario::DefundingRoundTrip,
                Scenario::LostDevice,
                Scenario::CrackedElement,
            ]);
        }
        r
    }

    /// What the scenario is called.
    pub fn name(&self) -> (r: &'static str)
        ensures
            r@ == scenario_name(*self),
    {
        match self {
            Scenario::PartialPayment => "pay 6 \u{20ac} of 10 \u{20ac}, keep and spend the 4 \u{20ac}",
            Scenario::Respending => "received value is re-spendable offline",
            Scenario::RefusedPayment => "refused payment costs nothing",
            Scenario::HoldingLimit => "holding limit checked before debit",
            Scenario::ReplayAndTampering => "transfers resist replay and tampering",
            Scenario::DefundingRoundTrip => "defunding round trip",
            Scenario::LostDevice => "lost device strands its balance",
            Scenario::CrackedElement => "cracked element counterfeits",
        }
    }

    /// The seed of the scenario's world: each has its own.
    pub fn seed(&self, seed: u64) -> (r: u64)
        requires
            seed + scenario_place(*self) <= u64::MAX,
        ensures
            r == seed + scenario_place(*self),
    {
        let place: u64 = match self {
            Scenario::PartialPayment => 0,
            Scenario::Respending => 1,
            Scenario::RefusedPayment => 2,
            Scenario::HoldingLimit => 3,
            Scenario::ReplayAndTampering => 4,
            Scenario::DefundingRoundTrip => 5,
            Scenario::LostDevice => 6,
            Scenario::CrackedElement => 7,
        };
        seed + place
    }

    /// Builds a world for the scenario and plays it. Returns the world as it is
    /// in the end.
    pub fn run(&self, cfg: &Config) -> (r: Result<World, Failure>)
        requires
            cfg.usable(),
            *self == Scenario::HoldingLimit ==> cfg.limit >= 100,
            cfg.seed + scenario_place(*self) <= u64::MAX,
        ensures
            match r {
                Ok(w) => {
                    &&& scenario_end(*self, cfg.limit, w@)
                    &&& exists|before: WorldView, stranger: CertificateView| #[trigger]
                        played(*self, *cfg, stranger, before, Ok(()), w@)
                },
                Err(failure) => {
                    ||| setup_failed(*cfg, failure@)
                    ||| exists|before: WorldView, stranger: CertificateView, after: WorldView|
                        #[trigger] played(*self, *cfg, stranger, before, Err(failure@), after)
                },
            },
    {
        match self {
            Scenario::PartialPayment => {
                let mut w: World = build(cfg, self.seed(cfg.seed), &[10000, 0, 0])?;
                proof {
                    assert(crate::harness::opened(
                        w@,
                        cfg.limit,
                        cfg.key_bits,
                        opening_balances(*self, cfg.limit),
                    ));
                }
                let ghost before = w@;
                let told: Result<(), Failure> = partial_payment_keeps_the_rest(&mut w);
                proof {
                    assert(played(*self, *cfg, arbitrary(), before, shown(told), w@));
                }
                told?;
                Ok(w)
            },
            Scenario::Respending => {
                let mut w: World = build(cfg, self.seed(cfg.seed), &[10000, 0, 0])?;
                proof {
                    assert(crate::harness::opened(
                        w@,
                        cfg.limit,
                        cfg.key_bits,
                        opening_balances(*self, cfg.limit),
                    ));
                }
                let ghost before = w@;
                let told: Result<(), Failure> = received_value_is_respendable(&mut w);
                proof {
                    assert(played(*self, *cfg, arbitrary(), before, shown(told), w@));
                }
                told?;
                Ok(w)
            },
            Scenario::RefusedPayment => {
                let mut w: World = build(cfg, self.seed(cfg.seed), &[10000, 0])?;
                proof {
                    assert(crate::harness::opened(
                        w@,
                        cfg.limit,
                        cfg.key_bits,
                        opening_balances(*self, cfg.limit),
                    ));
                }
                let rogue: DeviceCertificate = match rogue_certificate(cfg) {
                    Ok(certificate) => certificate,
                    Err(error) => {
                        return Err(Failure::Setup { error });
                    },
                };
                let ghost before = w@;
                let ghost stranger = rogue@;
                let told: Result<(), Failure> = refused_payment_costs_nothing(&mut w, rogue);
                proof {
                    assert(played(*self, *cfg, stranger, before, shown(told), w@));
                }
                told?;
                Ok(w)
            },
            Scenario::HoldingLimit => {
                let mut w: World = build(cfg, self.seed(cfg.seed), &[cfg.limit, cfg.limit])?;
                proof {
                    assert(crate::harness::opened(
                        w@,
                        cfg.limit,
                        cfg.key_bits,
                        opening_balances(*self, cfg.limit),
                    ));
                }
                let ghost before = w@;
                let told: Result<(), Failure> = holding_limit_checked_before_debit(
                    &mut w,
                    cfg.limit,
                );
                proof {
                    assert(played(*self, *cfg, arbitrary(), before, shown(told), w@));
                }
                told?;
                Ok(w)
            },
            Scenario::ReplayAndTampering => {
                let mut w: World = build(cfg, self.seed(cfg.seed), &[10000, 0, 0])?;
                proof {
                    assert(crate::harness::opened(
                        w@,
                        cfg.limit,
                        cfg.key_bits,
                        opening_balances(*self, cfg.limit),
                    ));
                }
                let ghost before = w@;
                let told: Result<(), Failure> = transfers_resist_replay_and_tampering(&mut w);
                proof {
                    assert(played(*self, *cfg, arbitrary(), before, shown(told), w@));
                }
                told?;
                Ok(w)
            },
            Scenario::DefundingRoundTrip => {
                let mut w: World = build(cfg, self.seed(cfg.seed), &[10000])?;
                proof {
                    assert(crate::harness::opened(
                        w@,
                        cfg.limit,
                        cfg.key_bits,
                        opening_balances(*self, cfg.limit),
                    ));
                }
                let ghost before = w@;
                let told: Result<(), Failure> = defunding_round_trip(&mut w);
                proof {
                    assert(played(*self, *cfg, arbitrary(), before, shown(told), w@));
                }
                told?;
                Ok(w)
            },
            Scenario::LostDevice => {
                let mut w: World = build(cfg, self.seed(cfg.seed), &[10000])?;
                proof {
                    assert(crate::harness::opened(
                        w@,
                        cfg.limit,
                        cfg.key_bits,
                        opening_balances(*self, cfg.limit),
                    ));
                }
                let ghost before = w@;
                let told: Result<(), Failure> = lost_device_strands_its_balance(&mut w);
                proof {
                    assert(played(*self, *cfg, arbitrary(), before, shown(told), w@));
                }
                told?;
                Ok(w)
            },
            Scenario::CrackedElement => {
                let mut w: World = build(cfg, self.seed(cfg.seed), &[10000, 0, 0])?;
                proof {
                    assert(crate::harness::opened(
                        w@,
                        cfg.limit,
                        cfg.key_bits,
                        opening_balances(*self, cfg.limit),
                    ));
                }
                let ghost before = w@;
                let told: Result<(), Failure> = cracked_element_counterfeits(&mut w);
                proof {
                    assert(played(*self, *cfg, arbitrary(), before, shown(told), w@));
                }
                told?;
                Ok(w)
            },
        }
    }
}

/// Builds a world, or says why that failed.
fn build(cfg: &Config, seed: u64, balances: &[u64]) -> (r: Result<World, Failure>)
    requires
        cfg.usable(),
    ensures
        r matches Ok(w) ==> {
            &&& w@.well_formed()
            &&& w@.issuer.key == cfg.issuer_key.verification_key()
            &&& w@.issuer.private_exponent == cfg.issuer_key.private_exponent()
            &&& crate::harness::opened(w@, cfg.limit, cfg.key_bits, balances@)
        },
        r matches Err(failure) ==> setup_failed(*cfg, failure@),
{
    match crate::harness::world(cfg, seed, balances) {
        Ok(w) => Ok(w),
        Err(error) => Err(Failure::Setup { error }),
    }
}

/// How many of the outcomes are failures.
pub open spec fn failures_in(outcomes: Seq<bool>) -> nat
    decreases outcomes.len(),
{
    if outcomes.len() == 0 {
        0
    } else {
        failures_in(outcomes.drop_last()) + if outcomes.last() {
            0nat
        } else {
            1nat
        }
    }
}

/// Counts the failures among the outcomes of scenarios, each of which tells whether
/// one has passed.
pub fn count_failures(outcomes: &[bool]) -> (r: usize)
    ensures
        r == failures_in(outcomes@),
        r <= outcomes@.len(),
        r == 0 <==> forall|i: int| 0 <= i < outcomes@.len() ==> outcomes@[i],
{
    let mut failed: usize = 0;
    let mut i: usize = 0;
    while i < outcomes.len()
        invariant
            failed <= i <= outcomes@.len(),
            failed == failures_in(outcomes@.take(i as int)),
            failed == 0 <==> forall|j: int| 0 <= j < i ==> outcomes@[j],
        decreases outcomes.len() - i,
    {
        proof {
            assert(outcomes@.take(i + 1).drop_last() =~= outcomes@.take(i as int));
        }
        if !outcomes[i] {
            failed = failed + 1;
        }
        i = i + 1;
    }
    proof {
        assert(outcomes@.take(i as int) =~= outcomes@);
    }
    failed
}

/// Whether every scenario has passed.
pub fn all_pass(outcomes: &[bool]) -> (r: bool)
    ensures
        r == forall|i: int| 0 <= i < outcomes@.len() ==> outcomes@[i],
{
    count_failures(outcomes) == 0
}

// ---------------------------------------------------------------------------
// What it means that a scenario passed
// ---------------------------------------------------------------------------

/// A passed partial payment: 10 EUR were funded, 6 EUR of them paid while 4 EUR stayed, and the
/// 4 EUR paid too.
pub proof fn lemma_partial_payment_left_the_rest(before: WorldView, after: WorldView) -> (r: (
    Seq<WorldView>,
    Seq<Result<u64, Error>>,
))
    requires
        plays(before, partial_script(), Ok(()), after),
    ensures
        fund_step(before, 0, 1000, r.1[0], r.0[0]),
        r.1[0] is Ok,
        pay_step(r.0[0], 0, 1, 600, r.1[1], r.0[1]),
        r.1[1] is Ok,
        r.0[1].devices[0].balance == 400,
        r.0[1].devices[1].balance == 600,
        pay_step(r.0[1], 0, 2, 400, r.1[2], after),
        r.1[2] is Ok,
        after.devices[0].balance == 0,
        after.devices[2].balance == 400,
{
    let moves = partial_script();
    let (c, s) = crate::script::lemma_pass_is_a_chain(before, moves, after);
    assert(moves[0] == Move::Fund { device: 0, amount: 1000 });
    crate::script::lemma_funding_move_is_a_funding(s[0], 0, 1000, c[0], s[1]);
    crate::script::lemma_payment_move_is_a_payment(s[1], moves[1], 0, 1, 600, c[1], s[2]);
    assert(s[3] == s[2] && s[2].world.devices[0].balance == 400) by {
        crate::script::lemma_looking_changes_nothing(s[2], moves[2], c[2]);
    }
    assert(s[4] == s[3] && s[3].world.devices[1].balance == 600) by {
        crate::script::lemma_looking_changes_nothing(s[3], moves[3], c[3]);
    }
    crate::script::lemma_payment_move_is_a_payment(s[4], moves[4], 0, 2, 400, c[4], s[5]);
    assert(s[6] == s[5] && s[5].world.devices[0].balance == 0) by {
        crate::script::lemma_looking_changes_nothing(s[5], moves[5], c[5]);
    }
    assert(s[7] == s[6] && s[6].world.devices[2].balance == 400) by {
        crate::script::lemma_looking_changes_nothing(s[6], moves[6], c[6]);
    }
    (seq![s[1].world, s[2].world], seq![c[0].result, c[1].result, c[4].result])
}

/// Passed re-spending: 10 EUR were funded; 6, 5 and 2 EUR of them went from hand to hand round
/// three devices; all of it is still on the devices, and the float is what it was before the
/// payments.
pub proof fn lemma_respending_conserved_the_value(before: WorldView, after: WorldView) -> (r: (
    Seq<WorldView>,
    Seq<Result<u64, Error>>,
))
    requires
        plays(before, respending_script(), Ok(()), after),
    ensures
        fund_step(before, 0, 1000, r.1[0], r.0[0]),
        pay_step(r.0[0], 0, 1, 600, r.1[1], r.0[1]),
        pay_step(r.0[1], 1, 2, 500, r.1[2], r.0[2]),
        pay_step(r.0[2], 2, 0, 200, r.1[3], after),
        forall|i: int| 0 <= i < 4 ==> #[trigger] r.1[i] is Ok,
        value_on(after.devices) == 1000,
        after.issuer.float == r.0[0].issuer.float,
{
    let moves = respending_script();
    let (c, s) = crate::script::lemma_pass_is_a_chain(before, moves, after);
    assert(moves[0] == Move::Fund { device: 0, amount: 1000 });
    crate::script::lemma_funding_move_is_a_funding(s[0], 0, 1000, c[0], s[1]);
    crate::script::lemma_loss_and_crack_book_nothing(s[1], moves[1], c[1], s[2]);
    crate::script::lemma_payment_move_is_a_payment(s[2], moves[2], 0, 1, 600, c[2], s[3]);
    crate::script::lemma_payment_move_is_a_payment(s[3], moves[3], 1, 2, 500, c[3], s[4]);
    crate::script::lemma_payment_move_is_a_payment(s[4], moves[4], 2, 0, 200, c[4], s[5]);
    crate::script::lemma_looking_changes_nothing(s[5], moves[5], c[5]);
    crate::script::lemma_looking_changes_nothing(s[6], moves[6], c[6]);
    (
        seq![s[1].world, s[3].world, s[4].world],
        seq![c[0].result, c[2].result, c[3].result, c[4].result],
    )
}

/// A passed refusal: of 5 EUR that were funded, 6 EUR could not be paid, for want of money; that
/// cost the payer nothing and left the payee no reservation. A request for 1 EUR with the
/// certificate of a stranger was refused for that certificate, and cost nothing either.
pub proof fn lemma_refusals_cost_nothing(
    before: WorldView,
    rogue: CertificateView,
    after: WorldView,
) -> (r: (Seq<WorldView>, Seq<Result<u64, Error>>, PaymentRequestView))
    requires
        plays(before, refused_script(rogue), Ok(()), after),
    ensures
        fund_step(before, 0, 500, r.1[0], r.0[0]),
        r.1[0] is Ok,
        pay_step(r.0[0], 0, 1, 600, r.1[1], r.0[1]),
        r.1[1] is Err && r.1[1]->Err_0 is InsufficientFunds,
        r.0[1].devices[0].balance == 500,
        r.0[1].devices[1].reserved() == 0,
        r.2.payee == rogue,
        r.2.amount_cents == 100,
        after.devices[0].pay_error(r.2) == Some(Error::InvalidCertificate),
        after.devices[0].balance == 500,
{
    let moves = refused_script(rogue);
    let (c, s) = crate::script::lemma_pass_is_a_chain(before, moves, after);
    assert(moves[0] == Move::Fund { device: 0, amount: 500 });
    crate::script::lemma_funding_move_is_a_funding(s[0], 0, 500, c[0], s[1]);
    crate::script::lemma_payment_move_is_a_payment(s[1], moves[1], 0, 1, 600, c[1], s[2]);
    assert(s[3] == s[2] && s[2].world.devices[0].balance == 500) by {
        crate::script::lemma_looking_changes_nothing(s[2], moves[2], c[2]);
    }
    assert(s[4] == s[3] && s[3].world.devices[1].reserved() == 0) by {
        crate::script::lemma_looking_changes_nothing(s[3], moves[3], c[3]);
    }
    crate::script::lemma_request_of_a_script_is_genuine(s[4], moves[4], c[4], s[5]);
    crate::script::lemma_request_of_a_script_is_genuine(s[5], moves[5], c[5], s[6]);
    assert(s[7] == s[6] && s[6].world.devices[0].pay_error(s[6].request->0) == Some(
        Error::InvalidCertificate,
    )) by {
        crate::script::lemma_looking_changes_nothing(s[6], moves[6], c[6]);
    }
    assert(s[8] == s[7] && s[7].world.devices[0].balance == 500) by {
        crate::script::lemma_looking_changes_nothing(s[7], moves[7], c[7]);
    }
    (seq![s[1].world, s[2].world], seq![c[0].result, c[1].result], s[6].request->0)
}

/// A passed limit check: the payer was funded with the limit, the payee with 1 EUR less. A
/// payment of 2 EUR was refused, with 1 EUR of room, before the payer was debited. One of 1 EUR
/// went through, and the payee is at its limit.
pub proof fn lemma_limit_was_checked_before_the_debit(
    before: WorldView,
    limit: u64,
    after: WorldView,
) -> (r: (Seq<WorldView>, Seq<Result<u64, Error>>))
    requires
        limit >= 100,
        plays(before, holding_script(limit), Ok(()), after),
    ensures
        fund_step(before, 0, limit, r.1[0], r.0[0]),
        r.1[0] is Ok,
        fund_step(r.0[0], 1, (limit - 100) as u64, r.1[1], r.0[1]),
        r.1[1] is Ok,
        pay_step(r.0[1], 0, 1, 200, r.1[2], r.0[2]),
        r.1[2] is Err && match r.1[2]->Err_0 {
            Error::HoldingLimitExceeded { headroom, .. } => headroom == 100,
            _ => false,
        },
        r.0[2].devices[0].balance == limit,
        pay_step(r.0[2], 0, 1, 100, r.1[3], after),
        r.1[3] is Ok,
        after.devices[1].balance == limit,
{
    let moves = holding_script(limit);
    let (c, s) = crate::script::lemma_pass_is_a_chain(before, moves, after);
    assert(moves[0] == Move::Fund { device: 0, amount: limit });
    assert(moves[1] == Move::Fund { device: 1, amount: (limit - 100) as u64 });
    crate::script::lemma_funding_move_is_a_funding(s[0], 0, limit, c[0], s[1]);
    crate::script::lemma_funding_move_is_a_funding(s[1], 1, (limit - 100) as u64, c[1], s[2]);
    crate::script::lemma_payment_move_is_a_payment(s[2], moves[2], 0, 1, 200, c[2], s[3]);
    crate::script::lemma_looking_changes_nothing(s[3], moves[3], c[3]);
    crate::script::lemma_payment_move_is_a_payment(s[4], moves[4], 0, 1, 100, c[4], s[5]);
    crate::script::lemma_looking_changes_nothing(s[5], moves[5], c[5]);
    (
        seq![s[1].world, s[2].world, s[3].world],
        seq![c[0].result, c[1].result, c[2].result, c[4].result],
    )
}

/// A passed tampering check: the first device signed a transfer of 6 EUR for the second. Raised
/// to 60 EUR, or readdressed to the third, its signature did not verify. As it is it was
/// credited, once: presented again it is known.
pub proof fn lemma_tampered_transfer_was_rejected(before: WorldView, after: WorldView) -> (r: (
    WorldView,
    TransferView,
))
    requires
        plays(before, tampering_script(), Ok(()), after),
    ensures
        r.1.amount_cents == 600,
        r.0.devices[1].receive_error(TransferView { amount_cents: 6000, ..r.1 }) == Some(
            Error::InvalidSignature,
        ),
        r.0.devices[2].receive_error(
            TransferView { payee: r.0.devices[2].certificate.device, ..r.1 },
        ) == Some(Error::InvalidSignature),
        r.0.devices[1].receive_error(r.1) is None,
        after.devices == r.0.devices.update(1, r.0.devices[1].received(r.1)),
        after.devices[1].receive_error(r.1) == Some(Error::AlreadyCredited),
        after.devices[1].balance == 600,
{
    let moves = tampering_script();
    let (c, s) = crate::script::lemma_pass_is_a_chain(before, moves, after);
    assert(moves[2] == Move::Answer { device: 0 });
    crate::script::lemma_transfer_of_a_script_is_genuine(s[2], moves[2], c[2], s[3]);
    crate::script::lemma_looking_changes_nothing(s[3], moves[3], c[3]);
    crate::script::lemma_looking_changes_nothing(s[4], moves[4], c[4]);
    crate::script::lemma_taken_transfer_is_credited(s[5], moves[5], c[5], s[6]);
    crate::script::lemma_looking_changes_nothing(s[6], moves[6], c[6]);
    crate::script::lemma_looking_changes_nothing(s[7], moves[7], c[7]);
    (s[5].world, s[5].transfer->0)
}

/// A passed round trip: 30 EUR were funded, an order for 12 EUR was signed and cashed, and
/// presented again it is known. The account holds 82 EUR, and 18 EUR are offline.
pub proof fn lemma_order_was_cashed_once(before: WorldView, after: WorldView) -> (r: (
    WorldView,
    Result<u64, Error>,
    WorldView,
    DefundingView,
))
    requires
        plays(before, defunding_script(), Ok(()), after),
    ensures
        fund_step(before, 0, 3000, r.1, r.0),
        r.1 is Ok,
        r.3.device == r.0.devices[0].certificate.device,
        r.3.amount_cents == 1200,
        r.2.issuer == r.0.issuer,
        r.2.issuer.defund_error(r.3) is None,
        after.issuer == r.2.issuer.after_defunding(r.3),
        after.issuer.defund_error(r.3) == Some(Error::Replay),
        after.issuer.accounts.contains_key(crate::bytes::block_key(after.accounts[0].0)),
        after.issuer.accounts[crate::bytes::block_key(after.accounts[0].0)] == 8200,
        after.issuer.float == 1800,
{
    let moves = defunding_script();
    let (c, s) = crate::script::lemma_pass_is_a_chain(before, moves, after);
    assert(moves[0] == Move::Fund { device: 0, amount: 3000 });
    crate::script::lemma_funding_move_is_a_funding(s[0], 0, 3000, c[0], s[1]);
    crate::script::lemma_order_of_a_script_is_genuine(s[1], moves[1], c[1], s[2]);
    crate::script::lemma_order_of_a_script_is_genuine(s[2], moves[2], c[2], s[3]);
    crate::script::lemma_looking_changes_nothing(s[3], moves[3], c[3]);
    crate::script::lemma_looking_changes_nothing(s[4], moves[4], c[4]);
    crate::script::lemma_looking_changes_nothing(s[5], moves[5], c[5]);
    (s[1].world, c[0].result, s[2].world, s[2].order->0)
}

/// A passed loss: 40 EUR were funded and the devices are gone; the account has 60 EUR left, and
/// the 40 EUR still count as offline.
pub proof fn lemma_lost_value_stayed_lost(before: WorldView, after: WorldView) -> (r: (
    WorldView,
    Result<u64, Error>,
))
    requires
        plays(before, lost_script(), Ok(()), after),
    ensures
        fund_step(before, 0, 4000, r.1, r.0),
        r.1 is Ok,
        after.devices.len() == 0,
        after.issuer == r.0.issuer,
        after.issuer.accounts.contains_key(crate::bytes::block_key(after.accounts[0].0)),
        after.issuer.accounts[crate::bytes::block_key(after.accounts[0].0)] == 6000,
        after.issuer.float == 4000,
{
    let moves = lost_script();
    let (c, s) = crate::script::lemma_pass_is_a_chain(before, moves, after);
    assert(moves[0] == Move::Fund { device: 0, amount: 4000 });
    crate::script::lemma_funding_move_is_a_funding(s[0], 0, 4000, c[0], s[1]);
    crate::script::lemma_loss_and_crack_book_nothing(s[1], moves[1], c[1], s[2]);
    crate::script::lemma_looking_changes_nothing(s[2], moves[2], c[2]);
    crate::script::lemma_looking_changes_nothing(s[3], moves[3], c[3]);
    (s[1].world, c[0].result)
}

proof fn lemma_crack_leaves_the_rest(s: StageView, device: int, c: Chance, next: StageView)
    requires
        step(s, Move::Crack { device }, c) == Ok::<StageView, crate::script::Stop>(next),
    ensures
        next == (StageView { world: cracked(s.world, device), ..s }),
{
    reveal(step);
}

proof fn lemma_defunding_is_booked(
    s: StageView,
    device: int,
    amount: u64,
    c: Chance,
    next: StageView,
)
    requires
        step(s, Move::Defund { device, amount }, c) == Ok::<StageView, crate::script::Stop>(next),
    ensures
        amount <= s.world.devices[device].balance,
        next.world.issuer == s.world.issuer.after_defunding(
            s.world.devices[device].order_for(amount),
        ),
{
    crate::script::lemma_order_of_a_script_is_genuine(s, Move::Defund { device, amount }, c, next);
}

/// A passed counterfeit: 10 EUR were funded to a device that was then cracked, and that paid 10
/// EUR to each of two others. They held 20 EUR between them and defunded all of it, so that the
/// float is 10 EUR below zero; the cracked device still shows its 10 EUR.
#[verifier::rlimit(50)]
pub proof fn lemma_cracked_device_paid_twice(before: WorldView, after: WorldView) -> (r: (
    Seq<WorldView>,
    Seq<Result<u64, Error>>,
))
    requires
        plays(before, cracked_script(), Ok(()), after),
    ensures
        fund_step(before, 0, 1000, r.1[0], r.0[0]),
        r.0[1] == cracked(r.0[0], 0),
        pay_step(r.0[1], 0, 1, 1000, r.1[1], r.0[2]),
        pay_step(r.0[2], 0, 2, 1000, r.1[2], r.0[3]),
        forall|i: int| 0 <= i < 3 ==> #[trigger] r.1[i] is Ok,
        r.0[3].devices[1].balance + r.0[3].devices[2].balance == 2000,
        r.0[3].devices[1].balance >= 1000,
        r.0[4].issuer == r.0[3].issuer.after_defunding(r.0[3].devices[1].order_for(1000)),
        r.0[4].devices[2].balance >= 1000,
        after.issuer == r.0[4].issuer.after_defunding(r.0[4].devices[2].order_for(1000)),
        after.issuer.float == -1000,
        after.devices[0].balance == 1000,
{
    let moves = cracked_script();
    let (c, s) = crate::script::lemma_pass_is_a_chain(before, moves, after);
    assert(moves[0] == Move::Fund { device: 0, amount: 1000 });
    crate::script::lemma_funding_move_is_a_funding(s[0], 0, 1000, c[0], s[1]);
    assert(moves[1] == Move::Crack { device: 0 });
    lemma_crack_leaves_the_rest(s[1], 0, c[1], s[2]);
    crate::script::lemma_payment_move_is_a_payment(s[2], moves[2], 0, 1, 1000, c[2], s[3]);
    crate::script::lemma_payment_move_is_a_payment(s[3], moves[3], 0, 2, 1000, c[3], s[4]);
    assert(s[5] == s[4] && s[4].world.devices[1].balance + s[4].world.devices[2].balance
        == 2000) by {
        crate::script::lemma_looking_changes_nothing(s[4], moves[4], c[4]);
    }
    assert(moves[5] == Move::Defund { device: 1, amount: 1000 });
    lemma_defunding_is_booked(s[5], 1, 1000, c[5], s[6]);
    assert(moves[6] == Move::Defund { device: 2, amount: 1000 });
    lemma_defunding_is_booked(s[6], 2, 1000, c[6], s[7]);
    assert(s[8] == s[7] && s[7].world.issuer.float == -1000) by {
        crate::script::lemma_looking_changes_nothing(s[7], moves[7], c[7]);
    }
    assert(s[9] == s[8] && s[8].world.devices[0].balance == 1000) by {
        crate::script::lemma_looking_changes_nothing(s[8], moves[8], c[8]);
    }
    (
        seq![s[1].world, s[2].world, s[3].world, s[4].world, s[6].world],
        seq![c[0].result, c[2].result, c[3].result],
    )
}

/// The world of a scenario has one account for each of its devices; the first is opened with
/// 100 EUR and the others with nothing. In the one on the holding limit both are opened with the
/// limit.
pub proof fn lemma_worlds_are_opened_for_their_scenarios(scenario: Scenario, limit: u64, i: int)
    requires
        0 <= i < opening_balances(scenario, limit).len(),
    ensures
        scenario == Scenario::HoldingLimit ==> opening_balances(scenario, limit)[i] == limit,
        scenario != Scenario::HoldingLimit && i == 0 ==> opening_balances(scenario, limit)[i]
            == 10000,
        scenario != Scenario::HoldingLimit && i > 0 ==> opening_balances(scenario, limit)[i] == 0,
        opening_balances(scenario, limit).len() == match scenario {
            Scenario::DefundingRoundTrip => 1nat,
            Scenario::LostDevice => 1,
            Scenario::RefusedPayment => 2,
            Scenario::HoldingLimit => 2,
            _ => 3,
        },
{
}

/// Different scenarios have different places among the eight, so that their seeds differ.
pub proof fn lemma_scenarios_have_places_of_their_own(one: Scenario, other: Scenario)
    ensures
        scenario_place(one) < 8,
        scenario_place(one) == scenario_place(other) ==> one == other,
{
}

/// The number of failures is the number of outcomes that are not a pass.
pub proof fn lemma_failures_are_counted(outcomes: Seq<bool>)
    ensures
        failures_in(outcomes) == outcomes.filter(|passed: bool| !passed).len(),
    decreases outcomes.len(),
{
    reveal(Seq::filter);
    if outcomes.len() > 0 {
        lemma_failures_are_counted(outcomes.drop_last());
    }
}

/// The text of a failed scenario says what was wrong and spells what was found in its place.
pub proof fn lemma_failure_spells_what_was_found(failure: FailureView) -> (r: Seq<char>)
    ensures
        match failure {
            FailureView::WrongAmount { what, cents } => {
                &&& failure_text(failure) == what@ + r
                &&& crate::text::spells_euros(r, cents as nat)
            },
            FailureView::WrongNumber { what, number } => {
                &&& number >= 0 ==> failure_text(failure) == what@ + r && crate::text::spells(
                    r,
                    number as nat,
                )
                &&& number < 0 ==> failure_text(failure) == what@ + ("-"@ + r)
                    && crate::text::spells(r, (-(number as int)) as nat)
            },
            FailureView::WrongAccount { what, holds } => match holds {
                Some(cents) => {
                    &&& failure_text(failure) == what@ + ("Some("@ + r + ")"@)
                    &&& crate::text::spells(r, cents as nat)
                },
                None => failure_text(failure) == what@ + "None"@,
            },
            FailureView::NotConserved { value } => {
                &&& failure_text(failure) == "value not conserved: "@ + r + " on devices"@
                &&& crate::text::spells_euros(r, value as nat)
            },
            FailureView::Unexpected { expected, got: GotView::Credited(cents) } => {
                &&& failure_text(failure) == "expected "@ + expected@ + ", got "@ + ("Ok("@ + r
                    + ")"@)
                &&& crate::text::spells(r, cents as nat)
            },
            FailureView::Unexpected { expected, got: GotView::Refused(error) } => failure_text(
                failure,
            ) == "expected "@ + expected@ + ", got "@ + ("Err("@ + crate::error::error_debug(error)
                + ")"@),
            FailureView::Unexpected { expected, got: GotView::Paid(transfer) } => failure_text(
                failure,
            ) == "expected "@ + expected@ + ", got "@ + ("Ok("@ + crate::message::transfer_debug(
                transfer,
            ) + ")"@),
            FailureView::Setup { error } => failure_text(failure) == "could not set up: "@
                + crate::error::error_text(error),
            FailureView::Refused { what, error } => failure_text(failure) == what@
                + crate::error::error_text(error),
            FailureView::Wrong { what } => failure_text(failure) == what@,
        },
{
    let n = match failure {
        FailureView::WrongAmount { cents, .. } => cents as nat,
        FailureView::WrongNumber { number, .. } => (if number < 0 {
            -(number as int)
        } else {
            number as int
        }) as nat,
        FailureView::WrongAccount { holds: Some(cents), .. } => cents as nat,
        FailureView::NotConserved { value } => value as nat,
        FailureView::Unexpected { got: GotView::Credited(cents), .. } => cents as nat,
        _ => 0,
    };
    crate::text::lemma_texts_spell(n, Seq::empty());
    match failure {
        FailureView::WrongAmount { .. } => crate::text::euros_text(n),
        FailureView::NotConserved { .. } => crate::text::euros_text(n),
        _ => crate::text::decimal_text(n),
    }
}

} // verus!
