//! The two ends of each link: the device that steers, the bridge between the
//! radio and the shore, the boat's radio, and the host.

use vstd::prelude::*;

use crate::frame::{
    acc_run, acc_step, first_zero, lemma_collects, lemma_first_zero_is, no_zero, take_frame,
    FrameAcc, MAX_FRAME,
};
use crate::proto::{
    decode, decode_unframed, encode, encode_unframed, frame_of, law_frame_opens,
    law_framed_message_round_trips, open_frame, BareMessage, CommandPacket, ConfigPacket, Error,
    HostMsg, Message, PositionReport, SensorPacket, WaypointCmd,
};

verus! {

/// What a frame reads as.
pub open spec fn frame_reads<M: Message>(frame: Seq<u8>) -> Result<M, Error> {
    match open_frame(frame) {
        Some(p) => M::read(p),
        None => Err(Error::BadEncoding),
    }
}

/// What a byte from the host brought the device.
#[derive(Clone, Copy, PartialEq, Eq, Structural, Debug)]
pub enum Received {
    /// Nothing yet.
    Waiting,
    /// A configuration. The controller is built anew.
    Configured(ConfigPacket),
    /// A snapshot of the sensors.
    Sensed(SensorPacket),
    /// A frame that is no message.
    BadFrame,
}

/// What a message from the host is to the device.
pub open spec fn received(m: Result<HostMsg, Error>) -> Received {
    match m {
        Ok(HostMsg::Config(c)) => Received::Configured(c),
        Ok(HostMsg::Sensor(s)) => Received::Sensed(s),
        Err(_) => Received::BadFrame,
    }
}

/// What a byte is to the device that has collected `pending`.
pub open spec fn receives(pending: Seq<u8>, byte: u8) -> Received {
    match acc_step(pending, byte).1 {
        Some(frame) => received(frame_reads::<HostMsg>(frame)),
        None => Received::Waiting,
    }
}

/// What the device remembers on the link to the host.
pub struct Device {
    acc: FrameAcc,
    config: Option<ConfigPacket>,
    waypoint: Option<WaypointCmd>,
}

impl Device {
    /// The bytes of a frame that is not complete yet.
    pub closed spec fn pending(&self) -> Seq<u8> {
        self.acc.pending()
    }

    /// The configuration, once it has come.
    pub closed spec fn config(&self) -> Option<ConfigPacket> {
        self.config
    }

    /// The latest waypoint that came over the radio.
    pub closed spec fn waypoint(&self) -> Option<WaypointCmd> {
        self.waypoint
    }

    /// The accumulator is well formed.
    pub closed spec fn inv(&self) -> bool {
        self.acc.inv()
    }

    /// A device that was never configured.
    pub fn new() -> (r: Device)
        ensures
            r.inv(),
            r.pending() == Seq::<u8>::empty(),
            r.config() is None,
            r.waypoint() is None,
    {
        Device { acc: FrameAcc::new(), config: None, waypoint: None }
    }

    /// A host connects: the device starts on a fresh frame and without a
    /// waypoint, but keeps its configuration.
    pub fn connect(&mut self)
        ensures
            final(self).inv(),
            final(self).pending() == Seq::<u8>::empty(),
            final(self).config() == old(self).config(),
            final(self).waypoint() is None,
    {
        self.acc = FrameAcc::new();
        self.waypoint = None;
    }

    /// Take a byte from the host in.
    pub fn receive(&mut self, byte: u8) -> (r: Received)
        requires
            old(self).inv(),
        ensures
            final(self).inv(),
            r == receives(old(self).pending(), byte),
            final(self).pending() == acc_step(old(self).pending(), byte).0,
            final(self).waypoint() == old(self).waypoint(),
            final(self).config() == (match r {
                Received::Configured(c) => Some(c),
                _ => old(self).config(),
            }),
    {
        match self.acc.push(byte) {
            None => Received::Waiting,
            Some(frame) => match decode::<HostMsg>(frame) {
                Ok(HostMsg::Config(c)) => {
                    self.config = Some(c);
                    Received::Configured(c)
                },
                Ok(HostMsg::Sensor(s)) => Received::Sensed(s),
                Err(_) => Received::BadFrame,
            },
        }
    }

    /// See to a snapshot of the sensors. A waypoint that came over the radio
    /// meanwhile replaces the one before it. Tells the configuration and the
    /// waypoint to steer by, unless the device was never configured: the
    /// snapshot is then ignored.
    pub fn steer(&mut self, arrived: Option<WaypointCmd>) -> (r: Option<
        (ConfigPacket, Option<WaypointCmd>),
    >)
        requires
            old(self).inv(),
        ensures
            final(self).inv(),
            final(self).pending() == old(self).pending(),
            final(self).config() == old(self).config(),
            final(self).waypoint() == (match arrived {
                Some(w) => Some(w),
                None => old(self).waypoint(),
            }),
            r == (match old(self).config() {
                Some(c) => Some((c, final(self).waypoint())),
                None => None,
            }),
    {
        if let Some(w) = arrived {
            self.waypoint = Some(w);
        }
        match self.config {
            Some(c) => Some((c, self.waypoint)),
            None => None,
        }
    }
}

/// What a byte from the host makes the device do.
#[derive(Clone, Copy, PartialEq, Eq, Structural, Debug)]
pub enum Heard {
    /// Nothing yet.
    Quiet,
    /// Build the controller anew.
    Configured(ConfigPacket),
    /// Answer a snapshot with a command, steering by the waypoint if there is
    /// one.
    Answer(ConfigPacket, SensorPacket, Option<WaypointCmd>),
    /// Ignore a snapshot that came before any configuration.
    Unconfigured,
    /// Drop a frame that is no message.
    BadFrame,
}

/// What the device has collected, its configuration and what it answers behind
/// one more byte. An answer goes by the configuration and the snapshot.
pub open spec fn hears_byte(pending: Seq<u8>, config: Option<ConfigPacket>, byte: u8) -> (
    Seq<u8>,
    Option<ConfigPacket>,
    Option<(ConfigPacket, SensorPacket)>,
) {
    let held = acc_step(pending, byte).0;
    match receives(pending, byte) {
        Received::Configured(c) => (held, Some(c), None),
        Received::Sensed(s) => match config {
            Some(c) => (held, config, Some((c, s))),
            None => (held, config, None),
        },
        _ => (held, config, None),
    }
}

impl Device {
    /// Take a byte from the host in and tell what to do. `radio` is asked for a
    /// waypoint that came meanwhile behind each snapshot, and then only; one
    /// that came replaces the one before it.
    pub fn hear<R: Fn() -> Option<WaypointCmd>>(&mut self, byte: u8, radio: &R) -> (r: Heard)
        requires
            old(self).inv(),
            call_requires(*radio, ()),
        ensures
            final(self).inv(),
            ({
                let next = hears_byte(old(self).pending(), old(self).config(), byte);
                &&& final(self).pending() == next.0
                &&& final(self).config() == next.1
                &&& next.2 == (match r {
                    Heard::Answer(c, s, _) => Some((c, s)),
                    _ => None,
                })
            }),
            match receives(old(self).pending(), byte) {
                Received::Waiting => r == Heard::Quiet && final(self).waypoint()
                    == old(self).waypoint(),
                Received::BadFrame => r == Heard::BadFrame && final(self).waypoint()
                    == old(self).waypoint(),
                Received::Configured(c) => r == Heard::Configured(c) && final(self).waypoint()
                    == old(self).waypoint(),
                Received::Sensed(s) => exists|arrived: Option<WaypointCmd>|
                    {
                        &&& #[trigger] call_ensures(*radio, (), arrived)
                        &&& final(self).waypoint() == (match arrived {
                            Some(w) => Some(w),
                            None => old(self).waypoint(),
                        })
                        &&& r == (match old(self).config() {
                            Some(c) => Heard::Answer(c, s, final(self).waypoint()),
                            None => Heard::Unconfigured,
                        })
                    },
            },
    {
        match self.receive(byte) {
            Received::Waiting => Heard::Quiet,
            Received::BadFrame => Heard::BadFrame,
            Received::Configured(c) => Heard::Configured(c),
            Received::Sensed(s) => {
                let arrived: Option<WaypointCmd> = radio();
                assert(call_ensures(*radio, (), arrived));
                match self.steer(arrived) {
                    Some((c, w)) => Heard::Answer(c, s, w),
                    None => Heard::Unconfigured,
                }
            },
        }
    }
}

/// The heading to steer: the bearing of the waypoint if there is one, else the
/// heading that the host asks for.
pub fn target_heading<F: Fn(WaypointCmd) -> u32>(
    sensor: &SensorPacket,
    waypoint: Option<WaypointCmd>,
    bearing: &F,
) -> (r: u32)
    requires
        forall|w: WaypointCmd| call_requires(*bearing, (w,)),
    ensures
        match waypoint {
            Some(w) => call_ensures(*bearing, (w,), r),
            None => r == sensor.target_heading,
        },
{
    match waypoint {
        Some(w) => bearing(w),
        None => sensor.target_heading,
    }
}

/// What the boat reports of a snapshot, with its speed.
pub fn position_report(sensor: &SensorPacket, speed: u32) -> (r: PositionReport)
    ensures
        r == (PositionReport {
            pos_x: sensor.pos_x,
            pos_y: sensor.pos_y,
            heading: sensor.heading,
            speed,
        }),
{
    PositionReport { pos_x: sensor.pos_x, pos_y: sensor.pos_y, heading: sensor.heading, speed }
}

/// Bridge, radio to shore: a packet that holds a position report becomes a
/// frame in `out`; any other packet is dropped.
pub fn air_to_host<'a>(packet: &[u8], out: &'a mut [u8]) -> (r: Option<&'a mut [u8]>)
    requires
        old(out)@.len() >= MAX_FRAME,
    ensures
        final(out)@.len() == old(out)@.len(),
        match (PositionReport::read(packet@), r) {
            (Ok(report), Some(frame)) => {
                &&& frame@ == frame_of(report.payload())
                &&& final(out)@ == final(frame)@ + old(out)@.skip(frame@.len() as int)
            },
            (Err(_), None) => final(out)@ == old(out)@,
            _ => false,
        },
{
    match decode_unframed::<PositionReport>(packet) {
        Ok(report) => {
            proof {
                report.payload_reads_back(Seq::empty());
            }
            match encode(&report, out) {
                Ok(frame) => Some(frame),
                Err(_) => None,
            }
        },
        Err(_) => None,
    }
}

/// What a byte from the shore makes the bridge send over the radio, with
/// `pending` collected before it: the waypoint of a frame that it completes.
pub open spec fn relays(pending: Seq<u8>, byte: u8) -> Option<WaypointCmd> {
    match acc_step(pending, byte).1 {
        Some(frame) => match frame_reads::<WaypointCmd>(frame) {
            Ok(w) => Some(w),
            Err(_) => None,
        },
        None => None,
    }
}

/// Bridge, shore to radio: a byte that completes the frame of a waypoint puts
/// a packet into `out`; any other frame is dropped.
pub fn host_to_air<'a>(acc: &mut FrameAcc, byte: u8, out: &'a mut [u8]) -> (r: Option<
    &'a mut [u8],
>)
    requires
        old(acc).inv(),
        old(out)@.len() >= MAX_FRAME,
    ensures
        final(acc).inv(),
        final(acc).pending() == acc_step(old(acc).pending(), byte).0,
        final(out)@.len() == old(out)@.len(),
        match (relays(old(acc).pending(), byte), r) {
            (Some(w), Some(packet)) => {
                &&& packet@ == w.payload()
                &&& final(out)@ == final(packet)@ + old(out)@.skip(packet@.len() as int)
            },
            (None, None) => final(out)@ == old(out)@,
            _ => false,
        },
{
    match acc.push(byte) {
        Some(frame) => match decode::<WaypointCmd>(frame) {
            Ok(w) => {
                proof {
                    w.payload_reads_back(Seq::empty());
                }
                match encode_unframed(&w, out) {
                    Ok(packet) => Some(packet),
                    Err(_) => None,
                }
            },
            Err(_) => None,
        },
        None => None,
    }
}

/// Boat, from the radio: the waypoint of a packet, if it is one.
pub fn waypoint_of_packet(packet: &[u8]) -> (r: Option<WaypointCmd>)
    ensures
        r == (match WaypointCmd::read(packet@) {
            Ok(w) => Some(w),
            Err(_) => None,
        }),
{
    match decode_unframed::<WaypointCmd>(packet) {
        Ok(w) => Some(w),
        Err(_) => None,
    }
}

/// The message of the first complete frame of what was received, which is
/// taken off. Nothing while no frame is complete.
pub fn next_message<M: Message>(rx: &mut Vec<u8>) -> (r: Option<Result<M, Error>>)
    ensures
        ({
            let end = first_zero(old(rx)@);
            if end < old(rx)@.len() {
                &&& r == Some(frame_reads::<M>(old(rx)@.take(end + 1)))
                &&& final(rx)@ == old(rx)@.skip(end + 1)
            } else {
                &&& r is None
                &&& final(rx)@ == old(rx)@
            }
        }),
{
    match take_frame(rx) {
        Some(f) => {
            let mut frame: Vec<u8> = f;
            let message: Result<M, Error> = decode::<M>(frame.as_mut_slice());
            Some(message)
        },
        None => None,
    }
}

/// Send a message to oneself: the number of bytes on the wire and what came
/// back.
pub fn loopback<M: Message>(msg: &M) -> (r: Result<(usize, M), Error>)
    ensures
        r == Ok::<(usize, M), Error>(((msg.payload().len() + 2) as usize, *msg)),
{
    let mut buf: [u8; MAX_FRAME] = [0u8; MAX_FRAME];
    let whole: &mut [u8] = &mut buf;
    proof {
        law_framed_message_round_trips(*msg);
        msg.payload_reads_back(Seq::empty());
        law_frame_opens(msg.payload());
    }
    match encode(msg, whole) {
        Ok(frame) => {
            let n: usize = frame.len();
            match decode::<M>(frame) {
                Ok(back) => Ok((n, back)),
                Err(e) => Err(e),
            }
        },
        Err(e) => Err(e),
    }
}

/// A report that went over the air in a packet comes out of the bridge in a
/// frame that reads as the same report.
pub proof fn law_bridge_passes_reports_on(report: PositionReport, rest: Seq<u8>)
    ensures
        PositionReport::read(report.payload() + rest) == Ok::<PositionReport, Error>(report),
        frame_reads::<PositionReport>(frame_of(report.payload())) == Ok::<PositionReport, Error>(
            report,
        ),
{
    report.payload_reads_back(rest);
    law_framed_message_round_trips(report);
}

/// A waypoint that the shore framed is relayed behind the last byte of its
/// frame and no sooner, and the packet reads as the same waypoint on the boat.
pub proof fn law_bridge_passes_waypoints_on(w: WaypointCmd)
    ensures
        ({
            let frame = frame_of(w.payload());
            let body = frame.drop_last();
            let held = acc_run(Seq::empty(), body);
            &&& held.1 == Seq::<Seq<u8>>::empty()
            &&& held.0 == body
            &&& relays(held.0, frame.last()) == Some(w)
            &&& WaypointCmd::read(w.payload()) == Ok::<WaypointCmd, Error>(w)
        }),
{
    w.payload_reads_back(Seq::empty());
    law_framed_message_round_trips(w);
    law_frame_opens(w.payload());
    let frame = frame_of(w.payload());
    let body = frame.drop_last();
    lemma_collects(Seq::empty(), body);
    assert(Seq::<u8>::empty() + body =~= body);
    assert(body.push(0) =~= frame);
}

/// A message that the host framed reaches the device behind the last byte of
/// its frame and no sooner.
pub proof fn law_device_hears_the_host(msg: HostMsg)
    ensures
        ({
            let frame = frame_of(msg.payload());
            let body = frame.drop_last();
            let held = acc_run(Seq::empty(), body);
            &&& held.1 == Seq::<Seq<u8>>::empty()
            &&& held.0 == body
            &&& receives(held.0, frame.last()) == received(Ok(msg))
        }),
{
    msg.payload_reads_back(Seq::empty());
    law_framed_message_round_trips(msg);
    law_frame_opens(msg.payload());
    let frame = frame_of(msg.payload());
    let body = frame.drop_last();
    lemma_collects(Seq::empty(), body);
    assert(Seq::<u8>::empty() + body =~= body);
    assert(body.push(0) =~= frame);
}

/// A snapshot that comes before any configuration is ignored; behind one it is
/// steered by, whatever bad frames came between.
pub proof fn law_device_needs_a_configuration(config: Option<ConfigPacket>, events: Seq<Received>)
    ensures
        config_after(config, events) is None <==> config is None && forall|i: int|
            0 <= i < events.len() ==> !((#[trigger] events[i]) is Configured),
    decreases events.len(),
{
    if events.len() > 0 {
        let rest = events.drop_last();
        law_device_needs_a_configuration(config, rest);
        assert(events.last() == events[events.len() - 1]);
        assert forall|i: int| 0 <= i < rest.len() implies rest[i] == #[trigger] events[i] by {}
        if config is None && (forall|i: int|
            0 <= i < rest.len() ==> !((#[trigger] rest[i]) is Configured))
            && !(events.last() is Configured) {
            assert forall|i: int| 0 <= i < events.len() implies !(
            (#[trigger] events[i]) is Configured) by {
                if i < rest.len() {
                    assert(!(rest[i] is Configured));
                }
            }
        }
        if forall|i: int| 0 <= i < events.len() ==> !((#[trigger] events[i]) is Configured) {
            assert forall|i: int| 0 <= i < rest.len() implies !(
            (#[trigger] rest[i]) is Configured) by {
                assert(!(events[i] is Configured));
            }
        }
    }
}

/// The configuration of a device after a row of events: the latest one.
pub open spec fn config_after(config: Option<ConfigPacket>, events: Seq<Received>) -> Option<
    ConfigPacket,
>
    decreases events.len(),
{
    if events.len() == 0 {
        config
    } else {
        match events.last() {
            Received::Configured(c) => Some(c),
            _ => config_after(config, events.drop_last()),
        }
    }
}

/// What the device has collected, its configuration and all that it answers, in
/// order, behind a stream of bytes.
pub open spec fn hears_all(pending: Seq<u8>, config: Option<ConfigPacket>, bytes: Seq<u8>) -> (
    Seq<u8>,
    Option<ConfigPacket>,
    Seq<(ConfigPacket, SensorPacket)>,
)
    decreases bytes.len(),
{
    if bytes.len() == 0 {
        (pending, config, Seq::empty())
    } else {
        let before = hears_all(pending, config, bytes.drop_last());
        let next = hears_byte(before.0, before.1, bytes.last());
        (
            next.0,
            next.1,
            match next.2 {
                Some(a) => before.2.push(a),
                None => before.2,
            },
        )
    }
}

/// One frame that the device can hold: a delimiter behind bytes that are none.
pub open spec fn well_framed(frame: Seq<u8>) -> bool {
    &&& 0 < frame.len() <= MAX_FRAME
    &&& frame.last() == 0
    &&& no_zero(frame.drop_last())
}

/// A row of frames as one stream.
pub open spec fn joined(frames: Seq<Seq<u8>>) -> Seq<u8>
    decreases frames.len(),
{
    if frames.len() == 0 {
        Seq::empty()
    } else {
        joined(frames.drop_last()) + frames.last()
    }
}

/// The configuration behind a row of frames, and the answers to it: one for each
/// snapshot that comes when there is a configuration, in order, and none for any
/// other frame.
pub open spec fn serves(config: Option<ConfigPacket>, frames: Seq<Seq<u8>>) -> (
    Option<ConfigPacket>,
    Seq<(ConfigPacket, SensorPacket)>,
)
    decreases frames.len(),
{
    if frames.len() == 0 {
        (config, Seq::empty())
    } else {
        let before = serves(config, frames.drop_last());
        match frame_reads::<HostMsg>(frames.last()) {
            Ok(HostMsg::Config(c)) => (Some(c), before.1),
            Ok(HostMsg::Sensor(s)) => match before.0 {
                Some(c) => (before.0, before.1.push((c, s))),
                None => before,
            },
            Err(_) => before,
        }
    }
}

/// The snapshots of a row of frames, in order.
pub open spec fn snapshots(frames: Seq<Seq<u8>>) -> Seq<SensorPacket>
    decreases frames.len(),
{
    if frames.len() == 0 {
        Seq::empty()
    } else {
        match frame_reads::<HostMsg>(frames.last()) {
            Ok(HostMsg::Sensor(s)) => snapshots(frames.drop_last()).push(s),
            _ => snapshots(frames.drop_last()),
        }
    }
}

proof fn lemma_hears_in_turn(
    pending: Seq<u8>,
    config: Option<ConfigPacket>,
    a: Seq<u8>,
    b: Seq<u8>,
)
    ensures
        ({
            let first = hears_all(pending, config, a);
            let second = hears_all(first.0, first.1, b);
            hears_all(pending, config, a + b) == (second.0, second.1, first.2 + second.2)
        }),
    decreases b.len(),
{
    let first = hears_all(pending, config, a);
    if b.len() == 0 {
        assert(a + b =~= a);
        assert(first.2 + Seq::<(ConfigPacket, SensorPacket)>::empty() =~= first.2);
    } else {
        assert((a + b).drop_last() =~= a + b.drop_last());
        lemma_hears_in_turn(pending, config, a, b.drop_last());
        let mid = hears_all(first.0, first.1, b.drop_last());
        match hears_byte(mid.0, mid.1, b.last()).2 {
            Some(x) => {
                assert((first.2 + mid.2).push(x) =~= first.2 + mid.2.push(x));
            },
            None => {},
        }
    }
}

/// Bytes that are no delimiter are collected and not acted on.
proof fn lemma_hears_nothing(config: Option<ConfigPacket>, body: Seq<u8>)
    requires
        no_zero(body),
        body.len() < MAX_FRAME,
    ensures
        hears_all(Seq::empty(), config, body) == (
            body,
            config,
            Seq::<(ConfigPacket, SensorPacket)>::empty(),
        ),
    decreases body.len(),
{
    if body.len() == 0 {
        assert(body =~= Seq::<u8>::empty());
    } else {
        let rest = body.drop_last();
        assert forall|i: int| 0 <= i < rest.len() implies rest[i] != 0 by {
            assert(body[i] != 0);
        }
        lemma_hears_nothing(config, rest);
        assert(body.last() == body[body.len() - 1]);
        assert(rest.push(body.last()) =~= body);
    }
}

/// However the bytes of the host come, a device answers each snapshot that comes
/// while it is configured exactly once and in order, and answers nothing else. A
/// configuration only replaces the one before it; a snapshot before any of them,
/// and a frame that is no message, change nothing.
pub proof fn law_device_answers_each_snapshot_once(
    config: Option<ConfigPacket>,
    frames: Seq<Seq<u8>>,
)
    requires
        forall|i: int| 0 <= i < frames.len() ==> well_framed(#[trigger] frames[i]),
    ensures
        hears_all(Seq::empty(), config, joined(frames)) == (
            Seq::<u8>::empty(),
            serves(config, frames).0,
            serves(config, frames).1,
        ),
    decreases frames.len(),
{
    if frames.len() > 0 {
        let rest = frames.drop_last();
        let frame = frames.last();
        assert forall|i: int| 0 <= i < rest.len() implies well_framed(#[trigger] rest[i]) by {
            assert(rest[i] == frames[i]);
        }
        assert(well_framed(frames[frames.len() - 1]));
        law_device_answers_each_snapshot_once(config, rest);
        lemma_hears_in_turn(Seq::empty(), config, joined(rest), frame);
        let before = serves(config, rest);
        let body = frame.drop_last();
        lemma_hears_nothing(before.0, body);
        assert(body.push(0) =~= frame);
        assert(before.1 + Seq::<(ConfigPacket, SensorPacket)>::empty() =~= before.1);
        match hears_byte(body, before.0, 0).2 {
            Some(x) => {
                assert(Seq::<(ConfigPacket, SensorPacket)>::empty().push(x) =~= seq![x]);
                assert(before.1 + seq![x] =~= before.1.push(x));
            },
            None => {},
        }
    }
}

/// A configured device answers every snapshot, and one that never gets a
/// configuration answers none.
pub proof fn law_configured_device_answers_every_snapshot(
    config: Option<ConfigPacket>,
    frames: Seq<Seq<u8>>,
)
    ensures
        config is Some ==> serves(config, frames).0 is Some && serves(config, frames).1.len()
            == snapshots(frames).len() && forall|i: int|
            0 <= i < snapshots(frames).len() ==> (#[trigger] serves(config, frames).1[i]).1
                == snapshots(frames)[i],
        config is None && (forall|i: int|
            0 <= i < frames.len() ==> !(received(
                frame_reads::<HostMsg>(#[trigger] frames[i]),
            ) is Configured)) ==> serves(config, frames) == (
            None::<ConfigPacket>,
            Seq::<(ConfigPacket, SensorPacket)>::empty(),
        ),
    decreases frames.len(),
{
    if frames.len() > 0 {
        let rest = frames.drop_last();
        law_configured_device_answers_every_snapshot(config, rest);
        if config is None && (forall|i: int|
            0 <= i < frames.len() ==> !(received(
                frame_reads::<HostMsg>(#[trigger] frames[i]),
            ) is Configured)) {
            assert forall|i: int| 0 <= i < rest.len() implies !(received(
                frame_reads::<HostMsg>(#[trigger] rest[i]),
            ) is Configured) by {
                assert(rest[i] == frames[i]);
            }
            assert(frames.last() == frames[frames.len() - 1]);
        }
        if config is Some {
            assert forall|i: int| 0 <= i < snapshots(frames).len() implies (
            #[trigger] serves(config, frames).1[i]).1 == snapshots(frames)[i] by {
                if i < snapshots(rest).len() {
                    assert(serves(config, rest).1[i].1 == snapshots(rest)[i]);
                }
            }
        }
    }
}

/// What the host reads from a stream that begins with a frame is the message
/// of that frame, and the rest of the stream is left for the next read.
pub proof fn law_host_reads_what_was_framed<M: Message>(msg: M, rest: Seq<u8>)
    ensures
        ({
            let rx = frame_of(msg.payload()) + rest;
            let end = first_zero(rx);
            &&& end < rx.len()
            &&& frame_reads::<M>(rx.take(end + 1)) == Ok::<M, Error>(msg)
            &&& rx.skip(end + 1) == rest
        }),
{
    msg.payload_reads_back(Seq::empty());
    law_framed_message_round_trips(msg);
    law_frame_opens(msg.payload());
    let frame = frame_of(msg.payload());
    let rx = frame + rest;
    let n = frame.len() - 1;
    assert(rx.take(n) =~= frame.drop_last());
    lemma_first_zero_is(rx, n);
    assert(rx.take(n + 1) =~= frame);
    assert(rx.skip(n + 1) =~= rest);
}

/// The frame of a message reads as that message at the delimiter behind its bytes.
proof fn lemma_last_byte_completes<M: Message>(msg: M)
    ensures
        ({
            let body = frame_of(msg.payload()).drop_last();
            &&& acc_step(body, 0) == (Seq::<u8>::empty(), Some(frame_of(msg.payload())))
            &&& frame_reads::<M>(frame_of(msg.payload())) == Ok::<M, Error>(msg)
        }),
{
    msg.payload_reads_back(Seq::empty());
    law_framed_message_round_trips(msg);
    law_frame_opens(msg.payload());
    let frame = frame_of(msg.payload());
    assert(frame.drop_last().push(0) =~= frame);
}

/// The last byte of a framed configuration gives the device that configuration and
/// no answer, whatever configuration it had.
pub proof fn law_device_takes_the_configuration(had: Option<ConfigPacket>, c: ConfigPacket)
    ensures
        ({
            let body = frame_of(HostMsg::Config(c).payload()).drop_last();
            &&& receives(body, 0) == Received::Configured(c)
            &&& hears_byte(body, had, 0) == (
                Seq::<u8>::empty(),
                Some(c),
                None::<(ConfigPacket, SensorPacket)>,
            )
        }),
{
    lemma_last_byte_completes(HostMsg::Config(c));
}

/// The last byte of a framed snapshot is answered by the configuration that the
/// device has, and not at all where it has none. The configuration stays.
pub proof fn law_device_answers_by_its_configuration(had: Option<ConfigPacket>, s: SensorPacket)
    ensures
        ({
            let body = frame_of(HostMsg::Sensor(s).payload()).drop_last();
            let next = hears_byte(body, had, 0);
            &&& receives(body, 0) == Received::Sensed(s)
            &&& next.0 == Seq::<u8>::empty()
            &&& next.1 == had
            &&& had is None ==> next.2 is None
            &&& had is Some ==> next.2 == Some((had->0, s))
        }),
{
    lemma_last_byte_completes(HostMsg::Sensor(s));
}

/// A byte that is no delimiter makes the device do nothing, and neither does a frame
/// that does not open, which is told as a bad one.
pub proof fn law_device_drops_bad_frames(pending: Seq<u8>, had: Option<ConfigPacket>, byte: u8)
    ensures
        byte != 0 ==> receives(pending, byte) == Received::Waiting,
        byte == 0 && pending.len() < MAX_FRAME && open_frame(pending.push(0)) is None ==> receives(
            pending,
            byte,
        ) == Received::BadFrame,
        byte != 0 || (pending.len() < MAX_FRAME && open_frame(pending.push(0)) is None) ==> {
            let next = hears_byte(pending, had, byte);
            next.1 == had && next.2 is None
        },
        byte == 0 ==> hears_byte(pending, had, byte).0 == Seq::<u8>::empty(),
{
}

/// The bridge sends nothing before a delimiter, nothing for a frame that does not
/// open, and nothing for one that holds less than a waypoint.
pub proof fn law_bridge_drops_the_rest(pending: Seq<u8>, byte: u8)
    ensures
        byte != 0 ==> relays(pending, byte) is None,
        pending.len() >= MAX_FRAME ==> relays(pending, byte) is None,
        open_frame(pending.push(0)) is None ==> relays(pending, byte) is None,
        open_frame(pending.push(0)) is Some && open_frame(pending.push(0))->0.len() < 8 ==> relays(
            pending,
            byte,
        ) is None,
{
}

} // verus!
