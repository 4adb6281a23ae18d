//! The background workload: a number that is doubled over and over until
//! the workload is told to stop.
//!
//! The number grows without bound, so it is kept as the little-endian bytes
//! of an arbitrary-precision integer, and the arithmetic on it is done by
//! `num_bigint`. The stop request arrives over a one-shot channel of `tokio`
//! whose sending half the coordinator of the run drops.

use vstd::prelude::*;
use num_bigint::BigUint;
use num_bigint::ToBigUint;
use tokio::sync::oneshot::Receiver;
use tokio::sync::oneshot::error::RecvError;
use tokio::sync::oneshot::error::TryRecvError;

verus! {

/// The number that the bytes `bytes` stand for, least significant first.
pub open spec fn le_value(bytes: Seq<u8>) -> nat
    decreases bytes.len(),
{
    if bytes.len() == 0 {
        0
    } else {
        bytes[0] as nat + 256 * le_value(bytes.drop_first())
    }
}

/// The character of the decimal digit `d`.
pub open spec fn digit_char(d: nat) -> char {
    if d == 0 {
        '0'
    } else if d == 1 {
        '1'
    } else if d == 2 {
        '2'
    } else if d == 3 {
        '3'
    } else if d == 4 {
        '4'
    } else if d == 5 {
        '5'
    } else if d == 6 {
        '6'
    } else if d == 7 {
        '7'
    } else if d == 8 {
        '8'
    } else {
        '9'
    }
}

/// The decimal numeral of `n`: no sign, no leading zero, `"0"` for zero.
pub open spec fn decimal(n: nat) -> Seq<char>
    decreases n,
{
    if n < 10 {
        seq![digit_char(n)]
    } else {
        decimal(n / 10).push(digit_char(n % 10))
    }
}

/// Calls `BigUint::from_bytes_le`, multiplies the number by two with
/// `num_bigint`'s `*` (the factor made by `ToBigUint::to_biguint`), and
/// calls `BigUint::to_bytes_le` on the product. Believed of them: the bytes
/// handed back stand for twice the number that `n` stands for.
#[verifier::external_body]
fn compute(n: &Vec<u8>) -> (doubled: Vec<u8>)
    ensures
        le_value(doubled@) == 2 * le_value(n@),
{
    (BigUint::from_bytes_le(n) * 2.to_biguint().unwrap()).to_bytes_le()
}

/// Calls `BigUint::from_bytes_le` and the `to_string` that `num_bigint`
/// gives a `BigUint`. Believed of them: the text is the decimal numeral of
/// the number that `n` stands for.
#[verifier::external_body]
fn to_decimal(n: &Vec<u8>) -> (text: String)
    ensures
        text@ == decimal(le_value(n@)),
{
    BigUint::from_bytes_le(n).to_string()
}

/// The receiving half of `tokio`'s one-shot channel, carried through as is.
#[verifier::external_type_specification]
#[verifier::external_body]
#[verifier::reject_recursive_types(T)]
pub struct ExReceiver<T>(Receiver<T>);

/// The error of awaiting that receiving half. Nothing here reads one; the
/// type is declared because the channel's own impls name it.
#[verifier::external_type_specification]
#[verifier::external_body]
pub struct ExRecvError(RecvError);

/// What the workload finds when it looks at its stop channel.
#[derive(Clone, Copy, Debug, PartialEq, Eq, Structural)]
pub enum StopSignal {
    /// Nothing was sent and the sender is still there.
    Empty,
    /// A value was waiting in the channel.
    Value,
    /// The sender is gone, or the value was taken before: stop.
    Closed,
}

/// Calls `Receiver::try_recv` of `tokio::sync::oneshot`, which does not
/// block, and reports which of its three answers came. Nothing is claimed
/// of the answer: it depends on what the sending side has done so far.
#[verifier::external_body]
fn try_recv(rx: &mut Receiver<u32>) -> (signal: StopSignal) {
    match rx.try_recv() {
        Ok(_) => StopSignal::Value,
        Err(TryRecvError::Empty) => StopSignal::Empty,
        Err(TryRecvError::Closed) => StopSignal::Closed,
    }
}

/// What the workload hands back when it is joined.
#[derive(Clone, Debug, PartialEq, Eq)]
pub struct WorkloadResult {
    /// The final number, as little-endian bytes.
    pub value: Vec<u8>,
    /// Whether the workload ended because it saw the stop request.
    pub completed: bool,
}

impl WorkloadResult {
    /// The final number.
    pub open spec fn number(&self) -> nat {
        le_value(self.value@)
    }

    /// The final number as a decimal numeral.
    pub fn to_decimal(&self) -> (text: String)
        ensures
            text@ == decimal(self.number()),
    {
        to_decimal(&self.value)
    }
}

/// The text that is stored for a workload that ended with `number`.
pub open spec fn artifact_text(number: nat) -> Seq<char> {
    "Calculated n:\n"@ + decimal(number) + "\n"@
}

/// The text to store for `result`: a heading, then the final number in
/// decimal on a line of its own.
pub fn render_artifact(result: &WorkloadResult) -> (text: String)
    ensures
        text@ == artifact_text(result.number()),
{
    let mut text = "Calculated n:\n".to_owned();
    text.append(result.to_decimal().as_str());
    text.append("\n");
    text
}

/// The number and the stop flag of a workload after one round of its loop
/// in which the stop channel showed `signal`.
pub open spec fn after_tick(state: (nat, bool), signal: StopSignal) -> (nat, bool) {
    if state.1 || signal == StopSignal::Closed {
        (state.0, true)
    } else {
        (2 * state.0, false)
    }
}

/// The number and the stop flag after one round for each of `signals`.
pub open spec fn after_ticks(state: (nat, bool), signals: Seq<StopSignal>) -> (nat, bool)
    decreases signals.len(),
{
    if signals.len() == 0 {
        state
    } else {
        after_tick(after_ticks(state, signals.drop_last()), signals.last())
    }
}

/// How many of `signals` come before the first `Closed`.
pub open spec fn rounds_before_stop(signals: Seq<StopSignal>) -> nat
    decreases signals.len(),
{
    if signals.len() == 0 {
        0
    } else if signals[0] == StopSignal::Closed {
        0
    } else {
        1 + rounds_before_stop(signals.drop_first())
    }
}

/// Two to the power of `n`.
pub open spec fn pow2(n: nat) -> nat
    decreases n,
{
    if n == 0 {
        1
    } else {
        2 * pow2((n - 1) as nat)
    }
}

/// A running workload doubles its number once in every round until the
/// channel shows `Closed` for the first time; in that round and in all that
/// follow it does no work, whatever the channel shows then.
pub proof fn law_workload_stops_at_first_closed(value: nat, signals: Seq<StopSignal>)
    ensures
        after_ticks((value, false), signals).0 == value * pow2(rounds_before_stop(signals)),
        after_ticks((value, false), signals).1 == (rounds_before_stop(signals) < signals.len()),
    decreases signals.len(),
{
    if signals.len() == 0 {
        let one = pow2(0);
        assert(value * one == value) by (nonlinear_arith)
            requires
                one == 1,
        ;
    } else {
        let front = signals.drop_last();
        law_workload_stops_at_first_closed(value, front);
        lemma_rounds_push(front, signals.last());
        assert(front.push(signals.last()) =~= signals);
        let n = rounds_before_stop(front);
        if n == front.len() && signals.last() != StopSignal::Closed {
            let more = pow2(n + 1);
            let less = pow2(n);
            assert(more == 2 * less);
            assert(value * more == 2 * (value * less)) by (nonlinear_arith)
                requires
                    more == 2 * less,
            ;
        }
    }
}

/// What one more signal does to the count of rounds before the stop.
proof fn lemma_rounds_push(signals: Seq<StopSignal>, last: StopSignal)
    ensures
        rounds_before_stop(signals.push(last)) == if rounds_before_stop(signals) < signals.len()
            || last == StopSignal::Closed {
            rounds_before_stop(signals)
        } else {
            rounds_before_stop(signals) + 1
        },
        rounds_before_stop(signals) <= signals.len(),
    decreases signals.len(),
{
    if signals.len() == 0 {
        assert(signals.push(last).drop_first() =~= signals);
    } else {
        lemma_rounds_push(signals.drop_first(), last);
        assert(signals.push(last).drop_first() =~= signals.drop_first().push(last));
    }
}

/// The number that a fresh workload starts from.
pub const INITIAL_VALUE: u8 = 2;

/// A cancellable computation that advances in small steps.
pub struct Workload {
    digits: Vec<u8>,
    stopped: bool,
}

impl Workload {
    /// The number computed so far.
    pub closed spec fn value(&self) -> nat {
        le_value(self.digits@)
    }

    /// Whether the workload has seen the stop request.
    pub closed spec fn stopped(&self) -> bool {
        self.stopped
    }

    /// The number is positive, so that every doubling makes it larger.
    pub open spec fn wf(&self) -> bool {
        self.value() >= INITIAL_VALUE
    }

    /// A workload that has not advanced yet.
    pub fn new() -> (workload: Workload)
        ensures
            workload.wf(),
            workload.value() == INITIAL_VALUE,
            !workload.stopped(),
    {
        let mut digits: Vec<u8> = Vec::new();
        digits.push(INITIAL_VALUE);
        proof {
            reveal_with_fuel(le_value, 2);
            assert(digits@.drop_first().len() == 0);
        }
        Workload { digits, stopped: false }
    }

    /// Whether the workload has seen the stop request.
    pub fn is_stopped(&self) -> (stopped: bool)
        ensures
            stopped == self.stopped(),
    {
        self.stopped
    }

    /// The number computed so far, as little-endian bytes.
    pub fn bytes(&self) -> (bytes: &Vec<u8>)
        ensures
            le_value(bytes@) == self.value(),
    {
        &self.digits
    }

    /// One unit of work: doubles the number.
    pub fn advance(&mut self)
        requires
            old(self).wf(),
        ensures
            final(self).wf(),
            final(self).value() == 2 * old(self).value(),
            final(self).value() > old(self).value(),
            final(self).stopped() == old(self).stopped(),
    {
        self.digits = compute(&self.digits);
    }

    /// One round of the workload's loop, given what the stop channel showed:
    /// on `Closed`, or once stopped, the workload stops and does no work; on
    /// any other answer it advances by one unit. Returns whether it is still
    /// running.
    pub fn tick(&mut self, signal: StopSignal) -> (running: bool)
        requires
            old(self).wf(),
        ensures
            final(self).wf(),
            running == !final(self).stopped(),
            final(self).stopped() == (old(self).stopped() || signal == StopSignal::Closed),
            final(self).value() == if running {
                2 * old(self).value()
            } else {
                old(self).value()
            },
            running ==> final(self).value() > old(self).value(),
            (final(self).value(), final(self).stopped()) == after_tick(
                (old(self).value(), old(self).stopped()),
                signal,
            ),
    {
        if self.stopped {
            return false;
        }
        match signal {
            StopSignal::Closed => {
                self.stopped = true;
                false
            },
            _ => {
                self.advance();
                true
            },
        }
    }

    /// One round of the workload's loop against its stop channel: looks at
    /// the channel without blocking, then does what [`Workload::tick`] does
    /// with the answer. Which answer the channel gives is not known here, so
    /// the contract says what holds for each.
    pub fn poll(&mut self, rx: &mut Receiver<u32>) -> (running: bool)
        requires
            old(self).wf(),
        ensures
            final(self).wf(),
            running == !final(self).stopped(),
            old(self).stopped() ==> !running,
            final(self).value() == if running {
                2 * old(self).value()
            } else {
                old(self).value()
            },
            running ==> final(self).value() > old(self).value(),
    {
        let signal = try_recv(rx);
        self.tick(signal)
    }

    /// Ends the workload and hands back its number, marked as completed if
    /// the workload had seen the stop request.
    pub fn finish(self) -> (result: WorkloadResult)
        ensures
            result.number() == self.value(),
            result.completed == self.stopped(),
    {
        WorkloadResult { value: self.digits, completed: self.stopped }
    }
}

} // verus!
