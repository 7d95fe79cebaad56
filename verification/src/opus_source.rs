//! How an Opus stream is read: which packets are heard, and where a seek ends.
use vstd::prelude::*;

verus! {

/// What a packet of a stream came to.
#[derive(Clone, Copy, Debug, PartialEq, Eq, Structural)]
pub enum PacketOutcome {
    /// It belongs to another track.
    Foreign,
    /// It was decoded, to this many frames.
    Decoded(usize),
    /// It is damaged.
    Damaged,
    /// The stream cannot be read on.
    Failed,
}

/// What follows a packet.
#[derive(Clone, Copy, Debug, PartialEq, Eq, Structural)]
pub enum PacketStep {
    /// The next packet is read.
    Next,
    /// The frames of the packet are heard.
    Play,
    /// The stream ends.
    Stop,
}

/// What follows a packet that came to `outcome`.
pub open spec fn step_after(outcome: PacketOutcome) -> PacketStep {
    match outcome {
        PacketOutcome::Foreign | PacketOutcome::Damaged => PacketStep::Next,
        PacketOutcome::Decoded(frames) => if frames > 0 {
            PacketStep::Play
        } else {
            PacketStep::Next
        },
        PacketOutcome::Failed => PacketStep::Stop,
    }
}

/// What follows a packet: packets of other tracks, damaged ones and ones without frames are passed
/// over, the first that has frames is heard, and a stream that cannot be read on ends.
pub fn packet_step(outcome: PacketOutcome) -> (r: PacketStep)
    ensures
        r == step_after(outcome),
{
    match outcome {
        PacketOutcome::Foreign => PacketStep::Next,
        PacketOutcome::Damaged => PacketStep::Next,
        PacketOutcome::Decoded(frames) => if frames > 0 {
            PacketStep::Play
        } else {
            PacketStep::Next
        },
        PacketOutcome::Failed => PacketStep::Stop,
    }
}

/// The duration of a stream, where it is known: none at all stands for an unknown one.
pub fn known_duration(duration: Option<u128>) -> (r: Option<u128>)
    ensures
        r == if duration == Some(0u128) {
            None
        } else {
            duration
        },
{
    match duration {
        Some(nanos) => if nanos == 0 {
            None
        } else {
            Some(nanos)
        },
        None => None,
    }
}

/// Where a seek to `position` ends: no farther than the end, where that is known.
pub fn seek_target(position: u128, total: Option<u128>) -> (r: u128)
    ensures
        match total {
            Some(end) => r == if position <= end {
                position
            } else {
                end
            },
            None => r == position,
        },
{
    match total {
        Some(end) => if position <= end {
            position
        } else {
            end
        },
        None => position,
    }
}

/// How many of `samples` samples make up whole frames of `channels` channels.
pub fn whole_frames(samples: usize, channels: usize) -> (r: usize)
    requires
        channels > 0,
    ensures
        r <= samples < r + channels,
        r as int % channels as int == 0,
{
    let rest: usize = samples % channels;
    proof {
        vstd::arithmetic::div_mod::lemma_fundamental_div_mod(samples as int, channels as int);
        vstd::arithmetic::div_mod::lemma_mod_multiples_basic(
            samples as int / channels as int,
            channels as int,
        );
        vstd::arithmetic::mul::lemma_mul_is_commutative(
            samples as int / channels as int,
            channels as int,
        );
        vstd::arithmetic::div_mod::lemma_mod_bound(samples as int, channels as int);
    }
    samples - rest
}

/// A packet is heard exactly if it was decoded to frames, and the stream ends exactly if it cannot be
/// read on: neither packets of other tracks nor damaged ones end it.
pub proof fn lemma_packets(outcome: PacketOutcome)
    ensures
        step_after(outcome) == PacketStep::Play <==> (outcome matches PacketOutcome::Decoded(frames)
            && frames > 0),
        step_after(outcome) == PacketStep::Stop <==> outcome == PacketOutcome::Failed,
{
}

/// A seek ends where it was asked to, unless that is behind the end; and it never ends behind another
/// seek that was asked to go farther.
pub proof fn lemma_seeks(a: u128, b: u128, total: Option<u128>, x: u128, y: u128)
    requires
        a <= b,
        call_ensures(seek_target, (a, total), x),
        call_ensures(seek_target, (b, total), y),
    ensures
        x <= a,
        x <= y,
        total matches Some(end) ==> x <= end && (a <= end ==> x == a),
        total is None ==> x == a,
{
}

} // verus!
