//! Scripts: what a scenario does, move by move, and how it ends.
//!
//! A script is a list of moves on a world of devices. It is played until a move
//! fails. What a move does is a function of the stage that it is made on and of
//! what chance has brought: [`step`] gives the next stage, or the failure.

use crate::certificate::CertificateView;
use crate::error::Error;
use crate::harness::{device_key, same_device, value_on, with_one, with_two, WorldView};
use crate::message::{DefundingView, PaymentRequestView, TransferView};
use crate::scenarios::{FailureView, GotView};
use crate::wallet::{ElementState, WalletView};
use vstd::prelude::*;

verus! {

/// A world in the middle of a script, with the messages that are under way and
/// the float that was noted.
pub struct StageView {
    pub world: WorldView,
    pub request: Option<PaymentRequestView>,
    pub transfer: Option<TransferView>,
    pub order: Option<DefundingView>,
    pub float: i128,
}

/// The stage before the first move.
pub open spec fn start(world: WorldView) -> StageView {
    StageView { world, request: None, transfer: None, order: None, float: 0 }
}

/// The moves. Where a move only looks, `show` says whether its failure shows what
/// was found.
pub enum Move {
    /// A device is funded.
    Fund { device: int, amount: u64 },
    /// One device pays another.
    Pay { payer: int, payee: int, amount: u64, what: &'static str },
    /// A payment that has to be refused for want of money.
    PayShort { payer: int, payee: int, amount: u64 },
    /// A payment that has to be refused for want of room, with so much room left.
    PayOver { payer: int, payee: int, amount: u64, headroom: u64 },
    /// A device has to have this balance.
    Balance { device: int, cents: u64, what: &'static str, show: bool },
    /// A device must not keep a reservation.
    NoReservation { device: int },
    /// The float is noted.
    NoteFloat,
    /// The float has to be what was noted.
    SameFloat,
    /// This much value has to be on all devices.
    ValueIs { value: nat },
    /// A device asks for a payment.
    Ask { device: int, amount: u64 },
    /// The payee of the request is replaced.
    SwapPayee { certificate: CertificateView },
    /// A device must not pay the request, for want of a certificate.
    AnswerUncertified { device: int },
    /// A device pays the request.
    Answer { device: int },
    /// A device has to reject the transfer with another amount.
    TakeInflated { device: int, cents: u64 },
    /// A device has to reject the transfer readdressed to itself.
    TakeRedirected { device: int },
    /// A device takes the transfer.
    Take { device: int, cents: u64 },
    /// A device has to reject the transfer as credited before.
    TakeAgain { device: int },
    /// A device signs an order to credit its account.
    Order { device: int, amount: u64 },
    /// The issuer cashes the order.
    Cash { amount: u64 },
    /// The issuer has to reject the order as cashed before.
    CashAgain,
    /// An account has to have this balance.
    AccountHolds { place: int, cents: u64, what: &'static str, show: bool },
    /// The float has to be this.
    FloatIs { float: i128, what: &'static str, show: bool },
    /// All devices are lost.
    Lose,
    /// A device is cracked.
    Crack { device: int },
    /// Two devices have to hold this much between them.
    BothHold { first: int, second: int, total: nat, what: &'static str },
    /// A device is defunded.
    Defund { device: int, amount: u64 },
}

/// A world in which a device has changed.
pub open spec fn put(world: WorldView, device: int, changed: WalletView) -> WorldView {
    WorldView { devices: world.devices.update(device, changed), ..world }
}

/// A funding has this result.
#[verifier::opaque]
pub open spec fn fund_step(
    before: WorldView,
    a: int,
    amount: u64,
    r: Result<u64, Error>,
    after: WorldView,
) -> bool {
    &&& with_one(before, after, a)
    &&& crate::protocol::fund_outcome(
        before.devices[a],
        before.issuer,
        amount,
        r,
        after.devices[a],
        after.issuer,
    )
}

/// A payment has this result.
#[verifier::opaque]
pub open spec fn pay_step(
    before: WorldView,
    a: int,
    b: int,
    amount: u64,
    r: Result<u64, Error>,
    after: WorldView,
) -> bool {
    &&& before.devices[a].can_debit()
    &&& with_two(before, after, a, b)
    &&& crate::protocol::pay_outcome(
        before.devices[a],
        before.devices[b],
        amount,
        r,
        after.devices[a],
        after.devices[b],
    )
}

/// The world after a device was handed a transfer.
pub open spec fn handed(world: WorldView, b: int, transfer: TransferView) -> WorldView {
    if world.devices[b].receive_error(transfer) is None {
        put(world, b, world.devices[b].received(transfer))
    } else {
        world
    }
}

/// The world after a device was handed a request.
pub open spec fn asked(world: WorldView, a: int, request: PaymentRequestView) -> WorldView {
    if world.devices[a].pay_error(request) is None {
        put(world, a, world.devices[a].debited(request.amount_cents))
    } else {
        world
    }
}

/// The world after the issuer was handed an order.
pub open spec fn presented(world: WorldView, order: DefundingView) -> WorldView {
    if world.issuer.defund_error(order) is None {
        WorldView { issuer: world.issuer.after_defunding(order), ..world }
    } else {
        world
    }
}

/// The failure of a device that cannot be debited any more.
pub open spec fn no_debit() -> FailureView {
    FailureView::Wrong { what: "the element cannot count another debit" }
}

/// The transfer with another amount.
pub open spec fn inflated(transfer: TransferView, cents: u64) -> TransferView {
    TransferView { amount_cents: cents, ..transfer }
}

/// The transfer with another payee.
pub open spec fn redirected(transfer: TransferView, payee: WalletView) -> TransferView {
    TransferView { payee: payee.certificate.device, ..transfer }
}

/// The world with a device cracked.
pub open spec fn cracked(world: WorldView, a: int) -> WorldView {
    put(world, a, WalletView { state: ElementState::Cracked, ..world.devices[a] })
}

/// The stage after a device has asked for a payment.
pub open spec fn stage_after_ask(
    s: StageView,
    b: int,
    amount: u64,
    nonce: [u8; 16],
) -> StageView {
    StageView {
        world: put(s.world, b, s.world.devices[b].with_request(nonce, amount)),
        request: Some(s.world.devices[b].request_for(nonce, amount)),
        ..s
    }
}

/// The stage after a device has paid the request.
pub open spec fn stage_after_answer(s: StageView, a: int) -> StageView {
    StageView {
        world: asked(s.world, a, s.request->0),
        transfer: Some(s.world.devices[a].transfer_for(s.request->0)),
        ..s
    }
}

/// The stage after a device has signed an order.
pub open spec fn stage_after_order(s: StageView, a: int, amount: u64) -> StageView {
    StageView {
        world: put(s.world, a, s.world.devices[a].debited(amount)),
        order: Some(s.world.devices[a].order_for(amount)),
        ..s
    }
}

/// What chance has brought to a move: the nonce that was drawn, or how a funding or
/// a payment went.
pub struct Chance {
    pub nonce: [u8; 16],
    pub result: Result<u64, Error>,
    pub after: WorldView,
}

/// The end of a script that was stopped: why, and the world that is left behind.
pub struct Stop {
    pub failure: FailureView,
    pub world: WorldView,
}

/// A funding or a payment went as it can go.
#[verifier::opaque]
pub open spec fn lawful(s: StageView, m: Move, c: Chance) -> bool {
    let w = s.world;
    match m {
        Move::Fund { device, amount } => fund_step(w, device, amount, c.result, c.after),
        Move::Pay { payer, payee, amount, .. } => w.devices[payer].can_debit() ==> pay_step(
            w,
            payer,
            payee,
            amount,
            c.result,
            c.after,
        ),
        Move::PayShort { payer, payee, amount } => w.devices[payer].can_debit() ==> pay_step(
            w,
            payer,
            payee,
            amount,
            c.result,
            c.after,
        ),
        Move::PayOver { payer, payee, amount, .. } => w.devices[payer].can_debit() ==> pay_step(
            w,
            payer,
            payee,
            amount,
            c.result,
            c.after,
        ),
        _ => true,
    }
}

/// The same stage in another world.
pub open spec fn in_world(s: StageView, world: WorldView) -> Result<StageView, Stop> {
    Ok(StageView { world, ..s })
}

/// The script stops here.
pub open spec fn stop(failure: FailureView, world: WorldView) -> Result<StageView, Stop> {
    Err(Stop { failure, world })
}

/// The script goes on if something is as it should be.
pub open spec fn unless(s: StageView, right: bool, failure: FailureView) -> Result<
    StageView,
    Stop,
> {
    if right {
        Ok(s)
    } else {
        stop(failure, s.world)
    }
}

/// What a payment gave, for a failure to show.
pub open spec fn got_from(r: Result<u64, Error>) -> GotView {
    match r {
        Ok(cents) => GotView::Credited(cents),
        Err(error) => GotView::Refused(error),
    }
}

/// What a device gave that was handed a request, for a failure to show.
pub open spec fn got_answer(device: WalletView, request: PaymentRequestView) -> GotView {
    match device.pay_error(request) {
        None => GotView::Paid(device.transfer_for(request)),
        Some(error) => GotView::Refused(error),
    }
}

/// What a move leads to.
#[verifier::opaque]
pub open spec fn step(s: StageView, m: Move, c: Chance) -> Result<StageView, Stop> {
    let w = s.world;
    match m {
        Move::Fund { .. } => match c.result {
            Ok(_) => in_world(s, c.after),
            Err(error) => stop(FailureView::Refused { what: "", error }, c.after),
        },
        Move::Pay { payer, what, .. } => {
            if !w.devices[payer].can_debit() {
                stop(no_debit(), w)
            } else {
                match c.result {
                    Ok(_) => in_world(s, c.after),
                    Err(error) => stop(FailureView::Refused { what, error }, c.after),
                }
            }
        },
        Move::PayShort { payer, .. } => {
            if !w.devices[payer].can_debit() {
                stop(no_debit(), w)
            } else {
                match c.result {
                    Err(Error::InsufficientFunds { .. }) => in_world(s, c.after),
                    other => stop(
                        FailureView::Unexpected {
                            expected: "InsufficientFunds",
                            got: got_from(other),
                        },
                        c.after,
                    ),
                }
            }
        },
        Move::PayOver { payer, headroom, .. } => {
            if !w.devices[payer].can_debit() {
                stop(no_debit(), w)
            } else {
                match c.result {
                    Err(Error::HoldingLimitExceeded { headroom: left, .. }) => {
                        if left == headroom {
                            in_world(s, c.after)
                        } else {
                            stop(
                                FailureView::WrongNumber {
                                    what: "headroom reported as ",
                                    number: left as i128,
                                },
                                c.after,
                            )
                        }
                    },
                    other => stop(
                        FailureView::Unexpected {
                            expected: "HoldingLimitExceeded",
                            got: got_from(other),
                        },
                        c.after,
                    ),
                }
            }
        },
        Move::Balance { device, cents, what, show } => {
            let found = w.devices[device].balance;
            unless(
                s,
                found == cents,
                if show {
                    FailureView::WrongAmount { what, cents: found }
                } else {
                    FailureView::Wrong { what }
                },
            )
        },
        Move::NoReservation { device } => unless(
            s,
            w.devices[device].reserved() == 0,
            FailureView::Wrong { what: "payee kept a reservation for a dead request" },
        ),
        Move::NoteFloat => Ok(StageView { float: w.issuer.float, ..s }),
        Move::SameFloat => unless(
            s,
            w.issuer.float == s.float,
            FailureView::Wrong { what: "the issuer's view changed during offline payments" },
        ),
        Move::ValueIs { value } => unless(
            s,
            value_on(w.devices) == value,
            FailureView::NotConserved { value: value_on(w.devices) as u128 },
        ),
        Move::Ask { device, amount } => match w.devices[device].reservation_error(amount) {
            Some(error) => stop(FailureView::Refused { what: "", error }, w),
            None => Ok(stage_after_ask(s, device, amount, c.nonce)),
        },
        Move::SwapPayee { certificate } => Ok(
            StageView {
                request: Some(PaymentRequestView { payee: certificate, ..s.request->0 }),
                ..s
            },
        ),
        Move::AnswerUncertified { device } => {
            let verdict = w.devices[device].pay_error(s.request->0);
            if !w.devices[device].can_debit() {
                stop(no_debit(), w)
            } else if verdict == Some(Error::InvalidCertificate) {
                Ok(s)
            } else {
                stop(
                    FailureView::Unexpected {
                        expected: "InvalidCertificate",
                        got: got_answer(w.devices[device], s.request->0),
                    },
                    asked(w, device, s.request->0),
                )
            }
        },
        Move::Answer { device } => {
            if !w.devices[device].can_debit() {
                stop(no_debit(), w)
            } else {
                match w.devices[device].pay_error(s.request->0) {
                    Some(error) => stop(FailureView::Refused { what: "", error }, w),
                    None => Ok(stage_after_answer(s, device)),
                }
            }
        },
        Move::TakeInflated { device, cents } => {
            let transfer = inflated(s.transfer->0, cents);
            if w.devices[device].receive_error(transfer) == Some(Error::InvalidSignature) {
                Ok(s)
            } else {
                stop(
                    FailureView::Wrong { what: "an inflated transfer was not rejected" },
                    handed(w, device, transfer),
                )
            }
        },
        Move::TakeRedirected { device } => {
            let transfer = redirected(s.transfer->0, w.devices[device]);
            if w.devices[device].receive_error(transfer) == Some(Error::InvalidSignature) {
                Ok(s)
            } else {
                stop(
                    FailureView::Wrong { what: "a redirected transfer was not rejected" },
                    handed(w, device, transfer),
                )
            }
        },
        Move::Take { device, cents } => {
            let transfer = s.transfer->0;
            if w.devices[device].receive_error(transfer) is None && transfer.amount_cents == cents {
                in_world(s, handed(w, device, transfer))
            } else {
                stop(
                    FailureView::Wrong { what: "the genuine transfer was not credited" },
                    handed(w, device, transfer),
                )
            }
        },
        Move::TakeAgain { device } => {
            let transfer = s.transfer->0;
            if w.devices[device].receive_error(transfer) == Some(Error::AlreadyCredited) {
                Ok(s)
            } else {
                stop(
                    FailureView::Wrong { what: "a replayed transfer was not refused" },
                    handed(w, device, transfer),
                )
            }
        },
        Move::Order { device, amount } => {
            if !w.devices[device].can_debit() {
                stop(no_debit(), w)
            } else {
                match w.devices[device].debit_error(amount) {
                    Some(error) => stop(FailureView::Refused { what: "", error }, w),
                    None => Ok(stage_after_order(s, device, amount)),
                }
            }
        },
        Move::Cash { amount } => {
            let order = s.order->0;
            if w.issuer.defund_error(order) is None && order.amount_cents == amount {
                in_world(s, presented(w, order))
            } else {
                stop(FailureView::Wrong { what: "defunding refused" }, presented(w, order))
            }
        },
        Move::CashAgain => {
            let order = s.order->0;
            if w.issuer.defund_error(order) == Some(Error::Replay) {
                Ok(s)
            } else {
                stop(
                    FailureView::Wrong { what: "a defunding order was cashed twice" },
                    presented(w, order),
                )
            }
        },
        Move::AccountHolds { place, cents, what, show } => {
            let holds = crate::harness::account_balance(w.issuer, w.accounts[place]);
            unless(
                s,
                holds == Some(cents),
                if show {
                    FailureView::WrongAccount { what, holds }
                } else {
                    FailureView::Wrong { what }
                },
            )
        },
        Move::FloatIs { float, what, show } => unless(
            s,
            w.issuer.float == float,
            if show {
                FailureView::WrongNumber { what, number: w.issuer.float }
            } else {
                FailureView::Wrong { what }
            },
        ),
        Move::Lose => in_world(s, WorldView { devices: Seq::empty(), ..w }),
        Move::Crack { device } => in_world(s, cracked(w, device)),
        Move::BothHold { first, second, total, what } => unless(
            s,
            w.devices[first].balance + w.devices[second].balance == total,
            FailureView::Wrong { what },
        ),
        Move::Defund { device, amount } => {
            let order = w.devices[device].order_for(amount);
            let debited = put(w, device, w.devices[device].debited(amount));
            let what = "defunding refused: ";
            if !w.devices[device].can_debit() {
                stop(no_debit(), w)
            } else if w.devices[device].debit_error(amount) is Some {
                stop(
                    FailureView::Refused { what, error: w.devices[device].debit_error(amount)->0 },
                    w,
                )
            } else {
                match w.issuer.defund_error(order) {
                    Some(error) => stop(FailureView::Refused { what, error }, debited),
                    None => in_world(s, presented(debited, order)),
                }
            }
        },
    }
}

/// One stage leads to the next by the move at its place.
pub open spec fn leads_on(
    moves: Seq<Move>,
    chances: Seq<Chance>,
    stages: Seq<StageView>,
    i: int,
) -> bool {
    &&& lawful(stages[i], moves[i], chances[i])
    &&& step(stages[i], moves[i], chances[i]) == Ok::<StageView, Stop>(stages[i + 1])
}

/// Stages that follow each other, each by the next move of a script.
pub open spec fn follows(
    start: StageView,
    moves: Seq<Move>,
    chances: Seq<Chance>,
    stages: Seq<StageView>,
) -> bool {
    &&& stages.len() == chances.len() + 1
    &&& chances.len() <= moves.len()
    &&& stages[0] == start
    &&& forall|i: int|
        0 <= i < chances.len() ==> #[trigger] leads_on(moves, chances, stages, i)
}

/// The first moves succeed, and lead to a stage.
#[verifier::opaque]
pub open spec fn reached(start: StageView, moves: Seq<Move>, k: int, s: StageView) -> bool {
    exists|chances: Seq<Chance>, stages: Seq<StageView>| #[trigger]
        follows(start, moves, chances, stages) && chances.len() == k && stages.last() == s
}

/// A move stops the script.
pub open spec fn stops(
    s: StageView,
    m: Move,
    c: Chance,
    failure: FailureView,
    after: WorldView,
) -> bool {
    &&& lawful(s, m, c)
    &&& step(s, m, c) == stop(failure, after)
}

/// A script is played on a world: either every move succeeds, or the first one that
/// does not gives the failure. This world is left behind.
pub open spec fn plays(
    before: WorldView,
    moves: Seq<Move>,
    r: Result<(), FailureView>,
    after: WorldView,
) -> bool {
    match r {
        Ok(_) => exists|s: StageView| #[trigger]
            reached(start(before), moves, moves.len() as int, s) && s.world == after,
        Err(failure) => exists|k: int, s: StageView, c: Chance|
            {
                &&& 0 <= k < moves.len()
                &&& #[trigger] reached(start(before), moves, k, s)
                &&& #[trigger] stops(s, moves[k], c, failure, after)
            },
    }
}

/// How far a script has been played.
pub struct Track {
    pub before: WorldView,
    pub moves: Seq<Move>,
    pub k: int,
    pub stage: StageView,
}

impl Track {
    /// One move further, with nothing changed but the world.
    pub open spec fn onward(self, world: WorldView) -> Track {
        self.to(StageView { world, ..self.stage })
    }

    /// One move further, at this stage.
    pub open spec fn to(self, stage: StageView) -> Track {
        Track { k: self.k + 1, stage, ..self }
    }
}

/// The first moves have led to where the track says.
pub open spec fn on_track(t: Track) -> bool {
    &&& 0 <= t.k <= t.moves.len()
    &&& reached(start(t.before), t.moves, t.k, t.stage)
}

/// A script that has not begun.
pub open spec fn first(world: WorldView, moves: Seq<Move>) -> Track {
    Track { before: world, moves, k: 0, stage: start(world) }
}

/// This move is next, on this world.
pub open spec fn due(t: Track, m: Move, world: WorldView) -> bool {
    &&& on_track(t)
    &&& t.k < t.moves.len()
    &&& t.moves[t.k] == m
    &&& t.stage.world == world
}

pub proof fn lemma_begin(world: WorldView, moves: Seq<Move>)
    ensures
        on_track(first(world, moves)),
{
    reveal(reached);
    assert(follows(start(world), moves, Seq::empty(), seq![start(world)]));
}

/// A move that was made either leads on or stops the script.
pub proof fn lemma_made(t: Track, c: Chance)
    requires
        on_track(t),
        t.k < t.moves.len(),
        lawful(t.stage, t.moves[t.k], c),
    ensures
        match step(t.stage, t.moves[t.k], c) {
            Ok(next) => on_track(t.to(next)),
            Err(end) => plays(t.before, t.moves, Err(end.failure), end.world),
        },
{
    let m = t.moves[t.k];
    match step(t.stage, m, c) {
        Ok(next) => {
            reveal(reached);
            let (chances, stages) = choose|chances: Seq<Chance>, stages: Seq<StageView>| #[trigger]
                follows(start(t.before), t.moves, chances, stages) && chances.len() == t.k
                    && stages.last() == t.stage;
            let all = chances.push(c);
            let further = stages.push(next);
            assert forall|i: int| 0 <= i < all.len() implies #[trigger] leads_on(
                t.moves,
                all,
                further,
                i,
            ) by {
                if i < t.k {
                    assert(leads_on(t.moves, chances, stages, i));
                }
            }
            assert(follows(start(t.before), t.moves, all, further));
        },
        Err(end) => {
            assert(stops(t.stage, m, c, end.failure, end.world));
        },
    }
}

/// A move was made on which chance has no bearing.
pub proof fn lemma_plain(t: Track)
    requires
        on_track(t),
        t.k < t.moves.len(),
        !(t.moves[t.k] is Fund),
        !(t.moves[t.k] is Pay),
        !(t.moves[t.k] is PayShort),
        !(t.moves[t.k] is PayOver),
    ensures
        match step(t.stage, t.moves[t.k], arbitrary()) {
            Ok(next) => on_track(t.to(next)),
            Err(end) => plays(t.before, t.moves, Err(end.failure), end.world),
        },
{
    reveal(lawful);
    lemma_made(t, arbitrary());
}

// ---------------------------------------------------------------------------
// When moves succeed
// ---------------------------------------------------------------------------

/// A device that has no request open.
pub open spec fn idle(device: WalletView) -> bool {
    device.incoming == Map::<u128, u64>::empty() && device.pending_funding == Map::<
        u128,
        u64,
    >::empty()
}

/// Every key is sound.
pub open spec fn sound_keys(world: WorldView) -> bool {
    &&& crate::signature::sound_key(world.issuer.key, world.issuer.private_exponent)
    &&& forall|i: int|
        0 <= i < world.devices.len() ==> crate::signature::sound_key(
            (#[trigger] world.devices[i]).key,
            world.devices[i].private_exponent,
        )
}

/// What is on the account behind a device.
pub open spec fn funds(world: WorldView, a: int) -> u64 {
    world.issuer.accounts[world.issuer.account_key(world.devices[a].certificate.device)]
}

/// How much a device may hold.
pub open spec fn limit_of(world: WorldView, a: int) -> u64 {
    world.devices[a].certificate.holding_limit_cents
}

/// A funding that nothing but the nonce can spoil.
pub open spec fn fundable(world: WorldView, a: int, amount: u64) -> bool {
    &&& sound_keys(world)
    &&& idle(world.devices[a])
    &&& 0 < amount
    &&& world.devices[a].balance + amount <= limit_of(world, a)
    &&& amount <= funds(world, a)
    &&& world.issuer.float + amount <= i128::MAX
}

/// What a funding does.
pub open spec fn fund_effect(before: WorldView, a: int, amount: u64, after: WorldView) -> bool {
    let account = before.issuer.account_key(before.devices[a].certificate.device);
    &&& with_one(before, after, a)
    &&& same_device(before.devices[a], after.devices[a])
    &&& after.devices[a].balance == before.devices[a].balance + amount
    &&& after.devices[a].counter == before.devices[a].counter
    &&& idle(after.devices[a])
    &&& after.issuer.accounts == before.issuer.accounts.insert(
        account,
        (before.issuer.accounts[account] - amount) as u64,
    )
    &&& after.issuer.float == before.issuer.float + amount
    &&& after.issuer.key == before.issuer.key
    &&& after.issuer.private_exponent == before.issuer.private_exponent
    &&& after.issuer.devices == before.issuer.devices
    &&& after.issuer.counters == before.issuer.counters
}

pub proof fn lemma_empty_total()
    ensures
        crate::totals::table_total(Map::empty()) == 0,
{
}

/// A funding succeeds, unless its nonce was used before.
pub proof fn lemma_fund_succeeds(
    before: WorldView,
    a: int,
    amount: u64,
    r: Result<u64, Error>,
    after: WorldView,
)
    requires
        before.well_formed(),
        0 <= a < before.devices.len(),
        fund_step(before, a, amount, r, after),
        fundable(before, a, amount),
    ensures
        r is Ok ==> fund_effect(before, a, amount, after),
        r matches Err(error) ==> {
            ||| error == Error::Replay && before.issuer.honoured != Set::<u128>::empty()
            ||| error == Error::AlreadyCredited && before.devices[a].credited
                != Set::<u128>::empty()
        },
{
    reveal(fund_step);
    let d = before.devices[a];
    lemma_empty_total();
    assert(d.reservation_error(amount) is None);
    let nonce = choose|nonce: [u8; 16]|
        crate::protocol::funding_outcome(
            #[trigger] d.with_funding(nonce, amount),
            before.issuer,
            d.funding_for(nonce, amount),
            r,
            after.devices[a],
            after.issuer,
        );
    let key = crate::bytes::block_key(nonce);
    crate::protocol::lemma_genuine_request_is_honoured(d, before.issuer, nonce, amount);
    let request = d.funding_for(nonce, amount);
    crate::signature::lemma_signature_verifies(
        d.key,
        d.private_exponent,
        crate::message::funding_request_digest(d.certificate.device, amount, nonce@),
    );
    if before.issuer.fund_error(request) is Some {
        assert(before.issuer.fund_error(request) == Some(Error::Replay));
        assert(before.issuer.honoured.contains(key));
    } else if d.credited.contains(key) {
        let opened = d.with_funding(nonce, amount);
        crate::signature::lemma_signature_verifies(
            before.issuer.key,
            before.issuer.private_exponent,
            crate::message::funding_digest(d.certificate.device, amount, nonce@),
        );
        assert(opened.funding_error(before.issuer.funding_for(request)) == Some(
            Error::AlreadyCredited,
        ));
    } else {
        crate::issuer::lemma_honoured_funding_is_credited(d, before.issuer, nonce, amount);
        assert(after.devices[a].pending_funding =~= Map::<u128, u64>::empty());
        assert(before.issuer.accounts.contains_key(
            before.issuer.account_key(d.certificate.device),
        ));
    }
}

/// A payment that nothing but the nonce can spoil.
pub open spec fn payable(world: WorldView, a: int, b: int, amount: u64) -> bool {
    &&& sound_keys(world)
    &&& idle(world.devices[b])
    &&& 0 < amount <= world.devices[a].balance
    &&& world.devices[b].balance + amount <= limit_of(world, b)
    &&& world.devices[a].can_debit()
}

/// What a payment does.
pub open spec fn pay_effect(
    before: WorldView,
    a: int,
    b: int,
    amount: u64,
    after: WorldView,
) -> bool {
    &&& with_two(before, after, a, b)
    &&& same_device(before.devices[a], after.devices[a])
    &&& same_device(before.devices[b], after.devices[b])
    &&& after.devices[a] == before.devices[a].debited(amount)
    &&& after.devices[b].balance == before.devices[b].balance + amount
    &&& after.devices[b].counter == before.devices[b].counter
    &&& idle(after.devices[b])
}

/// A payment succeeds, unless its nonce was credited before.
pub proof fn lemma_pay_succeeds(
    before: WorldView,
    a: int,
    b: int,
    amount: u64,
    r: Result<u64, Error>,
    after: WorldView,
)
    requires
        before.well_formed(),
        0 <= a < before.devices.len(),
        0 <= b < before.devices.len(),
        a != b,
        pay_step(before, a, b, amount, r, after),
        payable(before, a, b, amount),
    ensures
        r is Ok ==> pay_effect(before, a, b, amount, after),
        r matches Err(error) ==> error == Error::AlreadyCredited && before.devices[b].credited
            != Set::<u128>::empty(),
{
    reveal(pay_step);
    let payer = before.devices[a];
    let payee = before.devices[b];
    lemma_empty_total();
    assert(payee.reservation_error(amount) is None);
    let nonce = choose|nonce: [u8; 16]|
        crate::protocol::payment_outcome(
            payer,
            #[trigger] payee.with_request(nonce, amount),
            payee.request_for(nonce, amount),
            r,
            after.devices[a],
            after.devices[b],
        );
    let key = crate::bytes::block_key(nonce);
    let request = payee.request_for(nonce, amount);
    let opened = payee.with_request(nonce, amount);
    assert(device_key(payer) != device_key(payee));
    assert(payer.pay_error(request) is None);
    crate::totals::lemma_total_insert(payee.incoming, key, amount);
    assert(opened.well_formed());
    if payee.credited.contains(key) {
        crate::wallet::lemma_paid_transfer_is_credited(
            payer,
            WalletView { credited: Set::empty(), ..opened },
            request,
        );
        assert(opened.receive_error(payer.transfer_for(request)) == Some(Error::AlreadyCredited));
    } else {
        crate::wallet::lemma_paid_transfer_is_credited(payer, opened, request);
        assert(after.devices[b].incoming =~= Map::<u128, u64>::empty());
    }
}

/// A payment that has to be refused for want of money.
pub open spec fn short(world: WorldView, a: int, b: int, amount: u64) -> bool {
    &&& idle(world.devices[b])
    &&& world.devices[a].balance < amount
    &&& world.devices[b].balance + amount <= limit_of(world, b)
    &&& world.devices[a].can_debit()
}

/// A payment without the money for it is refused, and changes nothing.
pub proof fn lemma_short_is_refused(
    before: WorldView,
    a: int,
    b: int,
    amount: u64,
    r: Result<u64, Error>,
    after: WorldView,
)
    requires
        before.well_formed(),
        0 <= a < before.devices.len(),
        0 <= b < before.devices.len(),
        a != b,
        pay_step(before, a, b, amount, r, after),
        short(before, a, b, amount),
    ensures
        r is Err && r->Err_0 is InsufficientFunds,
        after == before,
{
    reveal(pay_step);
    let payer = before.devices[a];
    let payee = before.devices[b];
    lemma_empty_total();
    assert(payee.reservation_error(amount) is None);
    let nonce = choose|nonce: [u8; 16]|
        crate::protocol::payment_outcome(
            payer,
            #[trigger] payee.with_request(nonce, amount),
            payee.request_for(nonce, amount),
            r,
            after.devices[a],
            after.devices[b],
        );
    assert(device_key(payer) != device_key(payee));
    assert(payer.pay_error(payee.request_for(nonce, amount)) == payer.debit_error(amount));
    crate::wallet::lemma_cancelled_request_leaves_no_trace(payee, nonce, amount);
    assert(after.devices =~= before.devices);
}

/// A payment that has to be refused for want of room.
pub open spec fn over(world: WorldView, a: int, b: int, amount: u64, headroom: u64) -> bool {
    &&& world.devices[b].headroom() == headroom
    &&& headroom < amount
    &&& world.devices[a].can_debit()
}

/// A payment without the room for it is refused, and changes nothing.
pub proof fn lemma_over_is_refused(
    before: WorldView,
    a: int,
    b: int,
    amount: u64,
    headroom: u64,
    r: Result<u64, Error>,
    after: WorldView,
)
    requires
        0 <= a < before.devices.len(),
        0 <= b < before.devices.len(),
        pay_step(before, a, b, amount, r, after),
        over(before, a, b, amount, headroom),
    ensures
        r == Err::<u64, Error>(Error::HoldingLimitExceeded { requested: amount, headroom }),
        after == before,
{
    reveal(pay_step);
    assert(after.devices =~= before.devices);
}

/// A defunding that nothing can spoil.
pub open spec fn defundable(world: WorldView, a: int, amount: u64) -> bool {
    &&& sound_keys(world)
    &&& 0 < amount <= world.devices[a].balance
    &&& world.devices[a].can_debit()
    &&& funds(world, a) + amount <= u64::MAX
    &&& world.issuer.float - amount >= i128::MIN
}

/// Accounts with different identifiers are different accounts.
pub proof fn lemma_accounts_apart(world: WorldView, a: int, b: int)
    requires
        world.well_formed(),
        0 <= a < world.devices.len(),
        0 <= b < world.devices.len(),
        world.accounts[a] != world.accounts[b],
    ensures
        world.issuer.account_key(world.devices[a].certificate.device)
            != world.issuer.account_key(world.devices[b].certificate.device),
{
    if crate::bytes::block_key(world.accounts[a].0) == crate::bytes::block_key(
        world.accounts[b].0,
    ) {
        crate::bytes::lemma_block_key_injective(world.accounts[a].0, world.accounts[b].0);
    }
}

/// There is no value on fresh devices.
pub proof fn lemma_nothing_on_devices(world: WorldView)
    requires
        pristine(world),
    ensures
        value_on(world.devices) == 0,
{
    lemma_no_value(world.devices);
}

proof fn lemma_no_value(devices: Seq<WalletView>)
    requires
        forall|i: int|
            0 <= i < devices.len() ==> crate::protocol::fresh_wallet(#[trigger] devices[i]),
    ensures
        value_on(devices) == 0,
    decreases devices.len(),
{
    if devices.len() > 0 {
        lemma_no_value(devices.drop_last());
    }
}

/// A payment by a sealed device keeps the value on all devices.
pub proof fn lemma_payment_keeps_value(
    before: WorldView,
    a: int,
    b: int,
    amount: u64,
    after: WorldView,
)
    requires
        0 <= a < before.devices.len(),
        0 <= b < before.devices.len(),
        a != b,
        pay_effect(before, a, b, amount, after),
        before.devices[a].state == ElementState::Sealed,
        amount <= before.devices[a].balance,
    ensures
        value_on(after.devices) == value_on(before.devices),
{
    crate::harness::lemma_value_update(before.devices, a, after.devices[a]);
    crate::harness::lemma_value_update(
        before.devices.update(a, after.devices[a]),
        b,
        after.devices[b],
    );
}

/// A world that was just opened: every key is sound, nothing is on the devices,
/// and no request was ever honoured.
pub open spec fn pristine(world: WorldView) -> bool {
    &&& sound_keys(world)
    &&& world.issuer.float == 0
    &&& world.issuer.honoured == Set::<u128>::empty()
    &&& forall|i: int|
        0 <= i < world.devices.len() ==> crate::protocol::fresh_wallet(#[trigger] world.devices[i])
}

// ---------------------------------------------------------------------------
// What a move shows
// ---------------------------------------------------------------------------

/// A device in its place.
pub open spec fn at_hand(w: WorldView, device: int) -> bool {
    w.well_formed() && 0 <= device < w.devices.len()
}

/// A funding that succeeds puts its amount on the device, into the float and off the account,
/// and touches no other device.
pub proof fn lemma_funding_move_brings_the_amount(
    s: StageView,
    device: int,
    amount: u64,
    c: Chance,
    next: StageView,
    i: int,
)
    requires
        at_hand(s.world, device),
        lawful(s, Move::Fund { device, amount }, c),
        step(s, Move::Fund { device, amount }, c) == Ok::<StageView, Stop>(next),
    ensures
        next.world.devices.len() == s.world.devices.len(),
        next.world.devices[device].balance == s.world.devices[device].balance + amount,
        next.world.issuer.float == s.world.issuer.float + amount,
        0 <= i < s.world.devices.len() && i != device ==> next.world.devices[i]
            == s.world.devices[i],
        next.world.accounts == s.world.accounts,
        (next.request, next.transfer, next.order, next.float) == (
            s.request,
            s.transfer,
            s.order,
            s.float,
        ),
{
    reveal(step);
    reveal(lawful);
    reveal(fund_step);
    assert(s.world.devices[device].well_formed());
    crate::protocol::lemma_funding_moves_the_amount(
        s.world.devices[device],
        s.world.issuer,
        amount,
        c.result,
        c.after.devices[device],
        c.after.issuer,
    );
}

/// A payment that succeeds brings its amount to the payee, takes it from the payer unless that
/// is cracked, and touches neither the issuer nor another device.
pub proof fn lemma_payment_move_brings_the_amount(
    s: StageView,
    payer: int,
    payee: int,
    amount: u64,
    what: &'static str,
    c: Chance,
    next: StageView,
    i: int,
)
    requires
        at_hand(s.world, payer),
        at_hand(s.world, payee),
        payer != payee,
        lawful(s, Move::Pay { payer, payee, amount, what }, c),
        step(s, Move::Pay { payer, payee, amount, what }, c) == Ok::<StageView, Stop>(next),
    ensures
        next.world.devices.len() == s.world.devices.len(),
        next.world.devices[payee].balance == s.world.devices[payee].balance + amount,
        s.world.devices[payer].state == ElementState::Sealed ==> next.world.devices[payer].balance
            == s.world.devices[payer].balance - amount,
        s.world.devices[payer].state == ElementState::Cracked ==> next.world.devices[payer].balance
            == s.world.devices[payer].balance,
        next.world.issuer == s.world.issuer,
        0 <= i < s.world.devices.len() && i != payer && i != payee ==> next.world.devices[i]
            == s.world.devices[i],
        (next.request, next.transfer, next.order, next.float) == (
            s.request,
            s.transfer,
            s.order,
            s.float,
        ),
{
    reveal(step);
    reveal(lawful);
    reveal(pay_step);
    assert(s.world.devices[payer].well_formed());
    assert(s.world.devices[payee].well_formed());
    crate::protocol::lemma_payment_moves_the_amount(
        s.world.devices[payer],
        s.world.devices[payee],
        amount,
        c.result,
        c.after.devices[payer],
        c.after.devices[payee],
    );
}

/// A payment that was refused as it had to be, for want of money or of room, left every balance
/// as it was, and the refusal was for that reason.
pub proof fn lemma_refused_move_costs_nothing(
    s: StageView,
    payer: int,
    payee: int,
    amount: u64,
    over: bool,
    headroom: u64,
    c: Chance,
    next: StageView,
    i: int,
)
    requires
        at_hand(s.world, payer),
        at_hand(s.world, payee),
        payer != payee,
        0 <= i < s.world.devices.len(),
        ({
            let m = if over {
                Move::PayOver { payer, payee, amount, headroom }
            } else {
                Move::PayShort { payer, payee, amount }
            };
            lawful(s, m, c) && step(s, m, c) == Ok::<StageView, Stop>(next)
        }),
    ensures
        next.world.devices.len() == s.world.devices.len(),
        next.world.devices[i].balance == s.world.devices[i].balance,
        next.world.issuer == s.world.issuer,
        amount > 0,
        !over ==> amount > s.world.devices[payer].balance,
        over ==> ({
            let b = s.world.devices[payee];
            let room = b.certificate.holding_limit_cents - b.balance - b.reserved();
            amount > room && room == headroom
        }),
        (next.request, next.transfer, next.order, next.float) == (
            s.request,
            s.transfer,
            s.order,
            s.float,
        ),
{
    reveal(step);
    reveal(lawful);
    reveal(pay_step);
    assert(s.world.devices[payer].well_formed());
    assert(s.world.devices[payee].well_formed());
    crate::protocol::lemma_payment_moves_the_amount(
        s.world.devices[payer],
        s.world.devices[payee],
        amount,
        c.result,
        c.after.devices[payer],
        c.after.devices[payee],
    );
    crate::protocol::lemma_refusal_names_its_reason(
        s.world.devices[payer],
        s.world.devices[payee],
        amount,
        c.result,
        c.after.devices[payer],
        c.after.devices[payee],
    );
}

/// A move that only looks leaves the stage as it is, and succeeds exactly if what it looks for
/// is there.
pub proof fn lemma_looking_changes_nothing(s: StageView, m: Move, c: Chance)
    ensures
        ({
            let w = s.world;
            let passes = step(s, m, c) == Ok::<StageView, Stop>(s);
            let stopped = step(s, m, c) is Err && step(s, m, c)->Err_0.world == w;
            match m {
                Move::Balance { device, cents, .. } => {
                    &&& passes <==> w.devices[device].balance == cents
                    &&& passes || stopped
                },
                Move::NoReservation { device } => {
                    &&& passes <==> w.devices[device].reserved() == 0
                    &&& passes || stopped
                },
                Move::SameFloat => {
                    &&& passes <==> w.issuer.float == s.float
                    &&& passes || stopped
                },
                Move::ValueIs { value } => {
                    &&& passes <==> value_on(w.devices) == value
                    &&& passes || stopped
                },
                Move::AccountHolds { place, cents, .. } => {
                    let account = crate::bytes::block_key(w.accounts[place].0);
                    &&& passes <==> w.issuer.accounts.contains_key(account)
                        && w.issuer.accounts[account] == cents
                    &&& passes || stopped
                },
                Move::FloatIs { float, .. } => {
                    &&& passes <==> w.issuer.float == float
                    &&& passes || stopped
                },
                Move::BothHold { first, second, total, .. } => {
                    &&& passes <==> w.devices[first].balance + w.devices[second].balance == total
                    &&& passes || stopped
                },
                Move::AnswerUncertified { device } => step(s, m, c) is Ok ==> {
                    &&& passes
                    &&& w.devices[device].pay_error(s.request->0) == Some(Error::InvalidCertificate)
                },
                Move::TakeInflated { device, cents } => step(s, m, c) is Ok <==> {
                    &&& passes
                    &&& w.devices[device].receive_error(
                        TransferView { amount_cents: cents, ..s.transfer->0 },
                    ) == Some(Error::InvalidSignature)
                },
                Move::TakeRedirected { device } => step(s, m, c) is Ok <==> {
                    &&& passes
                    &&& w.devices[device].receive_error(
                        TransferView {
                            payee: w.devices[device].certificate.device,
                            ..s.transfer->0
                        },
                    ) == Some(Error::InvalidSignature)
                },
                Move::TakeAgain { device } => step(s, m, c) is Ok <==> {
                    &&& passes
                    &&& w.devices[device].receive_error(s.transfer->0) == Some(
                        Error::AlreadyCredited,
                    )
                },
                Move::CashAgain => step(s, m, c) is Ok <==> {
                    &&& passes
                    &&& w.issuer.defund_error(s.order->0) == Some(Error::Replay)
                },
                _ => true,
            }
        }),
{
    reveal(step);
}

/// A move that a failed look stops says what was found: the balance, the number, what is on the
/// account, or the value on all devices.
pub proof fn lemma_failed_look_says_what_was_found(s: StageView, m: Move, c: Chance, end: Stop)
    requires
        step(s, m, c) == Err::<StageView, Stop>(end),
    ensures
        ({
            let w = s.world;
            match m {
                Move::Balance { device, cents, what, show } => {
                    &&& w.devices[device].balance != cents
                    &&& show ==> end.failure == (FailureView::WrongAmount {
                        what,
                        cents: w.devices[device].balance,
                    })
                    &&& !show ==> end.failure == (FailureView::Wrong { what })
                },
                Move::ValueIs { value } => {
                    &&& value_on(w.devices) != value
                    &&& end.failure == (FailureView::NotConserved {
                        value: value_on(w.devices) as u128,
                    })
                },
                Move::FloatIs { float, what, show } => {
                    &&& w.issuer.float != float
                    &&& show ==> end.failure == (FailureView::WrongNumber {
                        what,
                        number: w.issuer.float,
                    })
                    &&& !show ==> end.failure == (FailureView::Wrong { what })
                },
                Move::AccountHolds { place, what, show, .. } => {
                    let account = crate::bytes::block_key(w.accounts[place].0);
                    let holds = if w.issuer.accounts.contains_key(account) {
                        Some(w.issuer.accounts[account])
                    } else {
                        None
                    };
                    &&& show ==> end.failure == (FailureView::WrongAccount { what, holds })
                    &&& !show ==> end.failure == (FailureView::Wrong { what })
                },
                Move::BothHold { what, .. } => end.failure == (FailureView::Wrong { what }),
                Move::NoReservation { device } => w.devices[device].reserved() != 0,
                Move::SameFloat => w.issuer.float != s.float,
                Move::Fund { .. } => c.result is Err && end == (Stop {
                    failure: FailureView::Refused { what: "", error: c.result->Err_0 },
                    world: c.after,
                }),
                Move::Pay { payer, what, .. } => if w.devices[payer].key.n > 0
                    && w.devices[payer].counter < u64::MAX {
                    c.result is Err && end == (Stop {
                        failure: FailureView::Refused { what, error: c.result->Err_0 },
                        world: c.after,
                    })
                } else {
                    end.world == w
                },
                Move::NoteFloat => false,
                Move::SwapPayee { .. } => false,
                Move::Lose => false,
                Move::Crack { .. } => false,
                _ => true,
            }
        }),
{
    reveal(step);
}

/// A device that asks for a payment has room for it, and the request is for that amount, to
/// that device, under the nonce that it drew. A request whose payee was replaced keeps the
/// rest.
pub proof fn lemma_request_of_a_script_is_genuine(
    s: StageView,
    m: Move,
    c: Chance,
    next: StageView,
)
    requires
        step(s, m, c) == Ok::<StageView, Stop>(next),
    ensures
        ({
            let w = s.world;
            match m {
                Move::Ask { device, amount } => {
                    let a = w.devices[device];
                    &&& 0 < amount <= a.headroom()
                    &&& next.request == Some(
                        PaymentRequestView {
                            payee: a.certificate,
                            amount_cents: amount,
                            nonce: c.nonce,
                        },
                    )
                    &&& next.world.issuer == w.issuer
                    &&& 0 <= device < w.devices.len() ==> {
                        &&& next.world.devices.len() == w.devices.len()
                        &&& next.world.devices[device].balance == a.balance
                    }
                },
                Move::SwapPayee { certificate } => {
                    &&& next.world == w
                    &&& next.request is Some
                    &&& next.request->0.payee == certificate
                    &&& next.request->0.amount_cents == s.request->0.amount_cents
                    &&& next.request->0.nonce == s.request->0.nonce
                },
                _ => true,
            }
        }),
{
    match m {
        Move::Ask { device, amount } => {
            let a = s.world.devices[device];
            assert(a.reservation_error(amount) is None && next == stage_after_ask(
                s,
                device,
                amount,
                c.nonce,
            )) by {
                reveal(step);
            }
        },
        Move::SwapPayee { certificate } => {
            assert(next == (StageView {
                request: Some(PaymentRequestView { payee: certificate, ..s.request->0 }),
                ..s
            })) by {
                reveal(step);
            }
        },
        _ => {},
    }
}

/// A device that pays a request could, and the transfer is from it, for what the request asks,
/// to the payee that it names.
pub proof fn lemma_transfer_of_a_script_is_genuine(
    s: StageView,
    m: Move,
    c: Chance,
    next: StageView,
)
    requires
        step(s, m, c) == Ok::<StageView, Stop>(next),
    ensures
        ({
            let w = s.world;
            match m {
                Move::Answer { device } => {
                    let a = w.devices[device];
                    let request = s.request->0;
                    &&& a.pay_error(request) is None
                    &&& next.transfer is Some
                    &&& next.transfer->0.payer == a.certificate
                    &&& next.transfer->0.payee == request.payee.device
                    &&& next.transfer->0.amount_cents == request.amount_cents
                    &&& next.transfer->0.nonce == request.nonce
                    &&& next.request == s.request
                },
                _ => true,
            }
        }),
{
    reveal(step);
}

/// A device that takes a transfer was right to, and the amount is the one that was expected.
pub proof fn lemma_taken_transfer_is_credited(
    s: StageView,
    m: Move,
    c: Chance,
    next: StageView,
)
    requires
        step(s, m, c) == Ok::<StageView, Stop>(next),
    ensures
        ({
            let w = s.world;
            match m {
                Move::Take { device, cents } => {
                    &&& w.devices[device].receive_error(s.transfer->0) is None
                    &&& s.transfer->0.amount_cents == cents
                    &&& next.transfer == s.transfer
                    &&& next.world.issuer == w.issuer
                    &&& next.world.devices == w.devices.update(
                        device,
                        w.devices[device].received(s.transfer->0),
                    )
                },
                _ => true,
            }
        }),
{
    reveal(step);
}

/// A device that signs an order has the money. An order that is cashed was right to be, and is
/// booked.
pub proof fn lemma_order_of_a_script_is_genuine(
    s: StageView,
    m: Move,
    c: Chance,
    next: StageView,
)
    requires
        step(s, m, c) == Ok::<StageView, Stop>(next),
    ensures
        ({
            let w = s.world;
            match m {
                Move::Order { device, amount } => {
                    let a = w.devices[device];
                    &&& 0 < amount <= a.balance
                    &&& next.order is Some
                    &&& next.order->0.device == a.certificate.device
                    &&& next.order->0.amount_cents == amount
                    &&& next.world.issuer == w.issuer
                },
                Move::Cash { amount } => {
                    &&& w.issuer.defund_error(s.order->0) is None
                    &&& s.order->0.amount_cents == amount
                    &&& next.order == s.order
                    &&& next.world.issuer == w.issuer.after_defunding(s.order->0)
                    &&& next.world.devices == w.devices
                },
                Move::Defund { device, amount } => {
                    let a = w.devices[device];
                    &&& 0 < amount <= a.balance
                    &&& w.issuer.defund_error(a.order_for(amount)) is None
                    &&& next.world.issuer == w.issuer.after_defunding(a.order_for(amount))
                    &&& next.world.devices == w.devices.update(device, a.debited(amount))
                },
                _ => true,
            }
        }),
{
    reveal(step);
}

/// To note the float changes nothing else. Lost devices are gone, and nothing is booked. A
/// cracked device keeps its balance, and the others are as they were.
pub proof fn lemma_loss_and_crack_book_nothing(
    s: StageView,
    m: Move,
    c: Chance,
    next: StageView,
)
    requires
        step(s, m, c) == Ok::<StageView, Stop>(next),
    ensures
        ({
            let w = s.world;
            match m {
                Move::NoteFloat => next.world == w && next.float == w.issuer.float,
                Move::Lose => next.world.devices.len() == 0 && next.world.issuer == w.issuer
                    && next.world.accounts == w.accounts,
                Move::Crack { device } => {
                    &&& next.world.issuer == w.issuer
                    &&& 0 <= device < w.devices.len() ==> {
                        &&& next.world.devices[device].state == ElementState::Cracked
                        &&& next.world.devices[device].balance == w.devices[device].balance
                        &&& next.world.devices.len() == w.devices.len()
                        &&& forall|i: int|
                            0 <= i < w.devices.len() && i != device
                                ==> #[trigger] next.world.devices[i] == w.devices[i]
                    }
                },
                _ => true,
            }
        }),
{
    match m {
        Move::NoteFloat => {
            assert(next == (StageView { float: s.world.issuer.float, ..s })) by {
                reveal(step);
            }
        },
        Move::Lose => {
            assert(next.world == (WorldView { devices: Seq::empty(), ..s.world })) by {
                reveal(step);
            }
        },
        Move::Crack { device } => {
            assert(next.world == cracked(s.world, device)) by {
                reveal(step);
            }
        },
        _ => {},
    }
}

/// A script that was played to its end is a chain of stages, one for each move, from the world
/// before to the world after.
pub proof fn lemma_pass_is_a_chain(before: WorldView, moves: Seq<Move>, after: WorldView) -> (r: (
    Seq<Chance>,
    Seq<StageView>,
))
    requires
        plays(before, moves, Ok(()), after),
    ensures
        r.0.len() == moves.len(),
        r.1.len() == moves.len() + 1,
        r.1[0] == start(before),
        r.1.last().world == after,
        forall|i: int|
            0 <= i < moves.len() ==> {
                &&& lawful(r.1[i], #[trigger] moves[i], r.0[i])
                &&& step(r.1[i], moves[i], r.0[i]) == Ok::<StageView, Stop>(r.1[i + 1])
            },
{
    let s = choose|s: StageView| #[trigger]
        reached(start(before), moves, moves.len() as int, s) && s.world == after;
    reveal(reached);
    let (chances, stages) = choose|chances: Seq<Chance>, stages: Seq<StageView>| #[trigger]
        follows(start(before), moves, chances, stages) && chances.len() == moves.len()
            && stages.last() == s;
    assert forall|i: int| 0 <= i < moves.len() implies {
        &&& lawful(stages[i], #[trigger] moves[i], chances[i])
        &&& step(stages[i], moves[i], chances[i]) == Ok::<StageView, Stop>(stages[i + 1])
    } by {
        assert(leads_on(moves, chances, stages, i));
    }
    (chances, stages)
}

/// A funding of a script is a funding of its world, and nothing else changes.
pub proof fn lemma_funding_move_is_a_funding(
    s: StageView,
    device: int,
    amount: u64,
    c: Chance,
    next: StageView,
)
    requires
        lawful(s, Move::Fund { device, amount }, c),
        step(s, Move::Fund { device, amount }, c) == Ok::<StageView, Stop>(next),
    ensures
        fund_step(s.world, device, amount, c.result, next.world),
        c.result is Ok,
        next == (StageView { world: next.world, ..s }),
{
    reveal(step);
    reveal(lawful);
}

/// A payment of a script is a payment in its world, and nothing else changes. It went as the
/// move asks.
pub proof fn lemma_payment_move_is_a_payment(
    s: StageView,
    m: Move,
    payer: int,
    payee: int,
    amount: u64,
    c: Chance,
    next: StageView,
)
    requires
        lawful(s, m, c),
        step(s, m, c) == Ok::<StageView, Stop>(next),
        match m {
            Move::Pay { payer: a, payee: b, amount: cents, .. } => (a, b, cents) == (
                payer,
                payee,
                amount,
            ),
            Move::PayShort { payer: a, payee: b, amount: cents } => (a, b, cents) == (
                payer,
                payee,
                amount,
            ),
            Move::PayOver { payer: a, payee: b, amount: cents, .. } => (a, b, cents) == (
                payer,
                payee,
                amount,
            ),
            _ => false,
        },
    ensures
        pay_step(s.world, payer, payee, amount, c.result, next.world),
        m is Pay ==> c.result is Ok,
        m is PayShort ==> c.result is Err && c.result->Err_0 is InsufficientFunds,
        m matches Move::PayOver { headroom, .. } ==> c.result is Err && match c.result->Err_0 {
            Error::HoldingLimitExceeded { headroom: left, .. } => left == headroom,
            _ => false,
        },
        next == (StageView { world: next.world, ..s }),
{
    reveal(step);
    reveal(lawful);
}

} // verus!
