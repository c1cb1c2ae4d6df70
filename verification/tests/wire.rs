use sailboat::frame::{take_frame, FrameAcc};
use sailboat::link::{
    air_to_host, host_to_air, loopback, next_message, position_report, target_heading,
    waypoint_of_packet, Device, Heard, Received,
};
use sailboat::proto::{
    decode, decode_unframed, encode, encode_unframed, CommandPacket, ConfigPacket, Error, HostMsg,
    PositionReport, SensorPacket, WaypointCmd, MAX_FRAME,
};

fn config() -> ConfigPacket {
    ConfigPacket {
        factor: 0.477f32.to_bits(),
        kp: 0.5f32.to_bits(),
        ki: 0.1f32.to_bits(),
        kd: 0.9f32.to_bits(),
        sample_time: 0.3f32.to_bits(),
        speed_adaption: 0.3f32.to_bits(),
        max_rudder_angle: 0.2618f32.to_bits(),
        sail_stretching: 0.961f32.to_bits(),
    }
}

fn sensor() -> SensorPacket {
    SensorPacket {
        target_heading: 0.5f32.to_bits(),
        heading: 0.1f32.to_bits(),
        yaw_rate: (-0.02f32).to_bits(),
        roll: 0.05f32.to_bits(),
        vel_x_body: 1.5f32.to_bits(),
        vel_y_body: 0.1f32.to_bits(),
        true_wind_dir: 0.785f32.to_bits(),
        true_wind_speed: 5.0f32.to_bits(),
        pos_x: 1234.5f32.to_bits(),
        pos_y: (-678.9f32).to_bits(),
    }
}

fn report() -> PositionReport {
    PositionReport {
        pos_x: 1500.0f32.to_bits(),
        pos_y: (-200.0f32).to_bits(),
        heading: 1.57f32.to_bits(),
        speed: 1.4f32.to_bits(),
    }
}

fn waypoint() -> WaypointCmd {
    WaypointCmd { x: 800.0f32.to_bits(), y: 950.0f32.to_bits() }
}

/// Byte stuffing with the closing delimiter, written out plainly.
fn stuffed(payload: &[u8]) -> Vec<u8> {
    let mut out = Vec::new();
    for block in payload.split(|&b| b == 0) {
        out.push(block.len() as u8 + 1);
        out.extend_from_slice(block);
    }
    out.push(0);
    out
}

#[test]
fn host_msg_round_trips() {
    let mut buf = [0u8; MAX_FRAME];
    let cfg = HostMsg::Config(config());
    let n = encode(&cfg, &mut buf).unwrap().len();
    let got: HostMsg = decode(&mut buf[..n]).unwrap();
    assert_eq!(got, cfg);

    let sensor = HostMsg::Sensor(sensor());
    let mut buf2 = [0u8; MAX_FRAME];
    let n2 = encode(&sensor, &mut buf2).unwrap().len();
    let got2: HostMsg = decode(&mut buf2[..n2]).unwrap();
    assert_eq!(got2, sensor);
}

#[test]
fn command_round_trips() {
    let mut buf = [0u8; MAX_FRAME];
    let cmd = CommandPacket { rudder_angle: (-0.12f32).to_bits(), sail_angle: 0.34f32.to_bits() };
    let n = encode(&cmd, &mut buf).unwrap().len();
    let got: CommandPacket = decode(&mut buf[..n]).unwrap();
    assert_eq!(got, cmd);
}

#[test]
fn lora_messages_round_trip_unframed() {
    let mut buf = [0u8; MAX_FRAME];
    let report = report();
    let n = encode_unframed(&report, &mut buf).unwrap().len();
    assert!(n <= 20, "position report should be tiny, got {n} bytes");
    let got: PositionReport = decode_unframed(&buf[..n]).unwrap();
    assert_eq!(got, report);

    let wp = waypoint();
    let n = encode_unframed(&wp, &mut buf).unwrap().len();
    let got: WaypointCmd = decode_unframed(&buf[..n]).unwrap();
    assert_eq!(got, wp);
}

#[test]
fn loopback_runs() {
    assert_eq!(loopback(&waypoint()), Ok((10, waypoint())));
    assert_eq!(loopback(&report()), Ok((18, report())));
    let cmd = CommandPacket { rudder_angle: 0, sail_angle: 1 };
    assert_eq!(loopback(&cmd), Ok((10, cmd)));
    assert_eq!(loopback(&HostMsg::Config(config())), Ok((35, HostMsg::Config(config()))));
    assert_eq!(loopback(&HostMsg::Sensor(sensor())), Ok((43, HostMsg::Sensor(sensor()))));
}

#[test]
fn frames_hold_the_stuffed_little_endian_words() {
    let mut buf = [0u8; MAX_FRAME];
    let wp = WaypointCmd { x: 0x0403_0201, y: 0x0800_0605 };
    let frame = encode(&wp, &mut buf).unwrap().to_vec();
    assert_eq!(frame, stuffed(&[1, 2, 3, 4, 5, 6, 0, 8]));
    assert_eq!(frame, vec![7, 1, 2, 3, 4, 5, 6, 2, 8, 0]);

    let report = PositionReport { pos_x: 1, pos_y: 2, heading: 3, speed: 4 };
    let frame = encode(&report, &mut buf).unwrap().to_vec();
    assert_eq!(frame, stuffed(&[1, 0, 0, 0, 2, 0, 0, 0, 3, 0, 0, 0, 4, 0, 0, 0]));

    let mut payload = vec![1u8];
    for w in [
        sensor().target_heading,
        sensor().heading,
        sensor().yaw_rate,
        sensor().roll,
        sensor().vel_x_body,
        sensor().vel_y_body,
        sensor().true_wind_dir,
        sensor().true_wind_speed,
        sensor().pos_x,
        sensor().pos_y,
    ] {
        payload.extend_from_slice(&w.to_le_bytes());
    }
    let frame = encode(&HostMsg::Sensor(sensor()), &mut buf).unwrap().to_vec();
    assert_eq!(frame, stuffed(&payload));

    let mut payload = vec![0u8];
    for w in [
        config().factor,
        config().kp,
        config().ki,
        config().kd,
        config().sample_time,
        config().speed_adaption,
        config().max_rudder_angle,
        config().sail_stretching,
    ] {
        payload.extend_from_slice(&w.to_le_bytes());
    }
    let frame = encode(&HostMsg::Config(config()), &mut buf).unwrap().to_vec();
    assert_eq!(frame, stuffed(&payload));
}

#[test]
fn packets_hold_the_bare_words() {
    let mut buf = [0xeeu8; 20];
    let report = PositionReport { pos_x: 1, pos_y: 0x100, heading: 3, speed: 4 };
    let n = encode_unframed(&report, &mut buf).unwrap().len();
    assert_eq!(n, 16);
    assert_eq!(buf[..16], [1, 0, 0, 0, 0, 1, 0, 0, 3, 0, 0, 0, 4, 0, 0, 0]);
    assert_eq!(buf[16..], [0xee; 4]);
    let wp = WaypointCmd { x: 0x0403_0201, y: 7 };
    assert_eq!(encode_unframed(&wp, &mut buf).unwrap().to_vec(), vec![1, 2, 3, 4, 7, 0, 0, 0]);
}

#[test]
fn writing_behind_the_frame_does_not_happen() {
    let mut buf = [0xeeu8; 20];
    let n = encode(&waypoint(), &mut buf).unwrap().len();
    assert_eq!(n, 10);
    assert_eq!(buf[10..], [0xee; 10]);
}

#[test]
fn a_short_buffer_is_refused() {
    assert_eq!(encode(&waypoint(), &mut [0u8; 9]).map(|f| f.len()), Err(Error::BufferFull));
    assert_eq!(encode(&waypoint(), &mut [0u8; 10]).map(|f| f.len()), Ok(10));
    assert_eq!(encode(&report(), &mut [0u8; 17]).map(|f| f.len()), Err(Error::BufferFull));
    assert_eq!(encode(&report(), &mut [0u8; 18]).map(|f| f.len()), Ok(18));
    let msg = HostMsg::Sensor(sensor());
    assert_eq!(encode(&msg, &mut [0u8; 42]).map(|f| f.len()), Err(Error::BufferFull));
    assert_eq!(encode(&msg, &mut [0u8; 43]).map(|f| f.len()), Ok(43));
    assert_eq!(encode(&msg, &mut [0u8; 0]).map(|f| f.len()), Err(Error::BufferFull));
    assert_eq!(encode_unframed(&waypoint(), &mut [0u8; 7]).map(|f| f.len()), Err(Error::BufferFull));
    assert_eq!(encode_unframed(&report(), &mut [0u8; 15]).map(|f| f.len()), Err(Error::BufferFull));
    assert_eq!(encode_unframed(&report(), &mut [0u8; 16]).map(|f| f.len()), Ok(16));
}

#[test]
fn bad_frames_tell_why() {
    // Empty, and a distance that points behind the frame.
    assert_eq!(decode::<CommandPacket>(&mut []), Err(Error::BadEncoding));
    assert_eq!(decode::<CommandPacket>(&mut [9, 1, 2, 0]), Err(Error::BadEncoding));
    assert_eq!(decode::<PositionReport>(&mut [9, 1, 2, 0]), Err(Error::BadEncoding));
    assert_eq!(decode::<HostMsg>(&mut [9, 1, 2, 0]), Err(Error::BadEncoding));
    // A delimiter alone is an empty payload.
    assert_eq!(decode::<CommandPacket>(&mut [0]), Err(Error::UnexpectedEnd));
    assert_eq!(decode::<HostMsg>(&mut [0]), Err(Error::UnexpectedEnd));
    // Too few bytes.
    assert_eq!(decode::<WaypointCmd>(&mut stuffed(&[1; 7])), Err(Error::UnexpectedEnd));
    assert_eq!(decode::<PositionReport>(&mut stuffed(&[1; 15])), Err(Error::UnexpectedEnd));
    assert_eq!(decode::<HostMsg>(&mut stuffed(&[0; 32])), Err(Error::UnexpectedEnd));
    assert_eq!(decode::<HostMsg>(&mut stuffed(&[1; 40])), Err(Error::UnexpectedEnd));
    // A tag that names no message, and one that is no tag.
    assert_eq!(decode::<HostMsg>(&mut stuffed(&[2; 41])), Err(Error::BadVariant));
    assert_eq!(decode::<HostMsg>(&mut stuffed(&[0xff; 41])), Err(Error::BadVarint));
    assert_eq!(decode::<HostMsg>(&mut stuffed(&[0x80; 3])), Err(Error::UnexpectedEnd));
    // Too few bytes without framing.
    assert_eq!(decode_unframed::<WaypointCmd>(&[1; 7]), Err(Error::UnexpectedEnd));
    assert_eq!(decode_unframed::<PositionReport>(&[1; 15]), Err(Error::UnexpectedEnd));
}

#[test]
fn a_tag_may_be_padded() {
    // Tag one, written with two bytes.
    let mut payload = vec![0x81u8, 0x00];
    payload.extend_from_slice(&[7; 40]);
    let got: HostMsg = decode(&mut stuffed(&payload)).unwrap();
    match got {
        HostMsg::Sensor(s) => assert_eq!(s.pos_y, 0x0707_0707),
        HostMsg::Config(_) => panic!("expected the sensors"),
    }
}

#[test]
fn bytes_behind_a_message_are_not_looked_at() {
    let got: WaypointCmd = decode(&mut stuffed(&[1, 1, 1, 1, 2, 2, 2, 2, 9, 9])).unwrap();
    assert_eq!(got, WaypointCmd { x: 0x0101_0101, y: 0x0202_0202 });
    let got: WaypointCmd = decode_unframed(&[1, 1, 1, 1, 2, 2, 2, 2, 9, 9]).unwrap();
    assert_eq!(got, WaypointCmd { x: 0x0101_0101, y: 0x0202_0202 });
    // Nor are bytes behind the delimiter.
    let mut frame = stuffed(&[1, 1, 1, 1, 2, 2, 2, 2]);
    frame.extend_from_slice(&[5, 5, 5]);
    assert!(decode::<WaypointCmd>(&mut frame).is_ok());
}

#[test]
fn decoding_leaves_the_payload_in_place() {
    let mut frame = stuffed(&[1, 0, 3, 4, 5, 6, 0, 8]);
    let tail = frame[8..].to_vec();
    decode::<WaypointCmd>(&mut frame).unwrap();
    assert_eq!(frame[..8], [1, 0, 3, 4, 5, 6, 0, 8]);
    assert_eq!(frame[8..], tail[..]);
}

#[test]
fn accumulator_yields_frames() {
    let mut acc = FrameAcc::new();
    assert_eq!(acc.push(1), None);
    assert_eq!(acc.push(2), None);
    assert_eq!(acc.push(0).map(|f| f.to_vec()), Some(vec![1, 2, 0]));
    assert_eq!(acc.push(0).map(|f| f.to_vec()), Some(vec![0]));
}

#[test]
fn accumulator_drops_overlong_frames_and_resyncs() {
    let mut acc = FrameAcc::new();
    for _ in 0..MAX_FRAME {
        assert_eq!(acc.push(7), None);
    }
    assert_eq!(acc.push(7), None);
    assert_eq!(acc.push(0), None);
    assert_eq!(acc.push(3), None);
    assert_eq!(acc.push(0).map(|f| f.to_vec()), Some(vec![3, 0]));
    // The longest frame that fits.
    for _ in 0..MAX_FRAME - 1 {
        assert_eq!(acc.push(7), None);
    }
    assert_eq!(acc.push(0).map(|f| f.len()), Some(MAX_FRAME));
}

#[test]
fn frames_are_taken_off_the_front() {
    let mut rx = vec![1, 0, 2, 3];
    assert_eq!(take_frame(&mut rx), Some(vec![1, 0]));
    assert_eq!(rx, vec![2, 3]);
    assert_eq!(take_frame(&mut rx), None);
    assert_eq!(rx, vec![2, 3]);
}

#[test]
fn messages_survive_noise_before_them() {
    let mut buf = [0u8; MAX_FRAME];
    let frame = encode(&HostMsg::Config(config()), &mut buf).unwrap().to_vec();
    let mut stream = vec![5u8; 100];
    stream.push(0);
    stream.extend_from_slice(&frame);
    let mut acc = FrameAcc::new();
    let mut got = Vec::new();
    for b in stream {
        if let Some(f) = acc.push(b) {
            got.push(f.to_vec());
        }
    }
    assert_eq!(got, vec![frame]);
    assert_eq!(decode::<HostMsg>(&mut got[0]), Ok(HostMsg::Config(config())));
}

fn feed(device: &mut Device, bytes: &[u8]) -> Vec<Received> {
    bytes.iter().map(|&b| device.receive(b)).filter(|r| *r != Received::Waiting).collect()
}

fn frame_of(msg: &HostMsg) -> Vec<u8> {
    let mut buf = [0u8; MAX_FRAME];
    encode(msg, &mut buf).unwrap().to_vec()
}

#[test]
fn device_ignores_sensors_until_configured() {
    let mut device = Device::new();
    let events = feed(&mut device, &frame_of(&HostMsg::Sensor(sensor())));
    assert_eq!(events, vec![Received::Sensed(sensor())]);
    assert_eq!(device.steer(None), None);
    let events = feed(&mut device, &frame_of(&HostMsg::Config(config())));
    assert_eq!(events, vec![Received::Configured(config())]);
    assert_eq!(device.steer(None), Some((config(), None)));
}

#[test]
fn device_latches_waypoints_and_forgets_them_on_connect() {
    let mut device = Device::new();
    feed(&mut device, &frame_of(&HostMsg::Config(config())));
    assert_eq!(device.steer(Some(waypoint())), Some((config(), Some(waypoint()))));
    assert_eq!(device.steer(None), Some((config(), Some(waypoint()))));
    device.receive(9);
    device.connect();
    assert_eq!(device.steer(None), Some((config(), None)));
    let events = feed(&mut device, &frame_of(&HostMsg::Sensor(sensor())));
    assert_eq!(events, vec![Received::Sensed(sensor())]);
}

#[test]
fn device_reports_bad_frames() {
    let mut device = Device::new();
    assert_eq!(feed(&mut device, &[9, 9, 0]), vec![Received::BadFrame]);
}

#[test]
fn device_answers_each_snapshot_once() {
    let sensed = frame_of(&HostMsg::Sensor(sensor()));
    let configured = frame_of(&HostMsg::Config(config()));
    let other = ConfigPacket { kp: 77, ..config() };
    let mut stream = Vec::new();
    for part in [
        &sensed,
        &vec![9u8, 9, 0],
        &configured,
        &sensed,
        &sensed,
        &vec![0u8],
        &frame_of(&HostMsg::Config(other)),
        &sensed,
    ] {
        stream.extend_from_slice(part);
    }
    // The radio has a waypoint for the second snapshot that is answered.
    let asked = std::cell::Cell::new(0);
    let radio = || {
        asked.set(asked.get() + 1);
        if asked.get() == 3 {
            Some(waypoint())
        } else {
            None
        }
    };
    let mut device = Device::new();
    let heard: Vec<Heard> = stream
        .iter()
        .map(|&b| device.hear(b, &radio))
        .filter(|h| *h != Heard::Quiet)
        .collect();
    assert_eq!(
        heard,
        vec![
            Heard::Unconfigured,
            Heard::BadFrame,
            Heard::Configured(config()),
            Heard::Answer(config(), sensor(), None),
            Heard::Answer(config(), sensor(), Some(waypoint())),
            Heard::BadFrame,
            Heard::Configured(other),
            Heard::Answer(other, sensor(), Some(waypoint())),
        ]
    );
    assert_eq!(asked.get(), 4);
}

#[test]
fn waypoint_overrides_the_asked_heading() {
    let bearing = |w: WaypointCmd| w.x ^ w.y;
    assert_eq!(target_heading(&sensor(), None, &bearing), sensor().target_heading);
    assert_eq!(
        target_heading(&sensor(), Some(waypoint()), &bearing),
        waypoint().x ^ waypoint().y
    );
}

#[test]
fn reports_repeat_the_sensors() {
    let r = position_report(&sensor(), 5);
    assert_eq!(r.pos_x, sensor().pos_x);
    assert_eq!(r.pos_y, sensor().pos_y);
    assert_eq!(r.heading, sensor().heading);
    assert_eq!(r.speed, 5);
}

#[test]
fn bridge_frames_reports_for_the_shore() {
    let mut packet = [0u8; MAX_FRAME];
    let n = encode_unframed(&report(), &mut packet).unwrap().len();
    let mut out = [0u8; MAX_FRAME];
    let mut frame = air_to_host(&packet[..n], &mut out).unwrap().to_vec();
    assert_eq!(decode::<PositionReport>(&mut frame), Ok(report()));
    assert_eq!(air_to_host(&packet[..n - 1], &mut out), None);
}

#[test]
fn bridge_relays_waypoints_to_the_air() {
    let mut buf = [0u8; MAX_FRAME];
    let frame = encode(&waypoint(), &mut buf).unwrap().to_vec();
    let mut acc = FrameAcc::new();
    let mut out = [0u8; MAX_FRAME];
    let mut sent = Vec::new();
    for b in [3u8, 3, 0].iter().chain(&frame) {
        if let Some(p) = host_to_air(&mut acc, *b, &mut out) {
            sent.push(p.to_vec());
        }
    }
    assert_eq!(sent.len(), 1);
    assert_eq!(waypoint_of_packet(&sent[0]), Some(waypoint()));
    assert_eq!(waypoint_of_packet(&sent[0][..7]), None);
}

#[test]
fn host_reads_frame_by_frame() {
    let mut buf = [0u8; MAX_FRAME];
    let cmd = CommandPacket { rudder_angle: 1, sail_angle: 2 };
    let mut rx = encode(&cmd, &mut buf).unwrap().to_vec();
    rx.extend_from_slice(&[9, 9, 0, 4]);
    assert_eq!(next_message::<CommandPacket>(&mut rx), Some(Ok(cmd)));
    assert_eq!(next_message::<CommandPacket>(&mut rx), Some(Err(Error::BadEncoding)));
    assert_eq!(next_message::<CommandPacket>(&mut rx), None);
    assert_eq!(rx, vec![4]);
}
