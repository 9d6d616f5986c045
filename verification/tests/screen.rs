//! Windows, the applications in them, the display and the finger.
use jungey::app::{notes, shell, Effect, Msg, Session, EV_START, EV_TAP};
use jungey::display::{
    attach, attached, begin, compose, frames, introduce, poll, presented, request_stats,
    server_stats, shutdown, start_app_window, wait_for_windows, Client, Frame, Opening, Poll,
    ServerStats,
};
use jungey::gpudrv::{
    acknowledgement, attach_backing, create_resource, decode, flush, set_scanout, transfer, Font,
    Gpu, Op, PIXELS,
};
use jungey::inputdrv::{
    step, Axis, DriverAction, DriverEvent, Input, Pointer, ABS_X, ABS_Y, BTN_TOUCH, EV_ABS,
    EV_KEY, EV_SYN,
};
use jungey::ipc::Channels;
use jungey::sched::Scheduler;
use jungey::wm::{shade, Cmd, Draw, Rect, Recorder, Window, Wm};

fn rect(x: usize, y: usize, w: usize, h: usize) -> Rect {
    Rect { x, y, w, h }
}

/// The shell and, over a part of it, the notes.
fn desktop() -> Wm {
    let mut m = Wm::new();
    assert!(m.create(11, 0, rect(30, 150, 390, 250), 0xff16_1b22, b"JUNGEY SHELL"));
    assert!(m.create(12, 1, rect(70, 330, 390, 220), 0xff1b_1622, b"NOTES"));
    m
}

#[test]
fn rectangles() {
    let r = rect(10, 20, 30, 40);
    assert!(r.contains(10, 20) && r.contains(39, 59));
    assert!(!r.contains(40, 20) && !r.contains(9, 20) && !r.contains(10, 60));
    assert!(!Rect::empty().contains(0, 0));
    assert_eq!(r.area(), 1200);
    assert_eq!(r.union(&rect(0, 50, 5, 50)), rect(0, 20, 40, 80));
    assert_eq!(r.union(&Rect::empty()), r);
    assert_eq!(Rect::empty().union(&r), r);
    assert_eq!(rect(470, 950, 100, 100).clamp_to_screen(), rect(470, 950, 10, 10));
    assert_eq!(rect(500, 1000, 5, 5).clamp_to_screen(), rect(480, 960, 0, 0));
}

/// The same point goes to another application once the one underneath is raised, and
/// a tap outside every window goes nowhere.
#[test]
fn a_tap_goes_to_the_topmost_window() {
    let mut m = desktop();
    assert_eq!(m.hit(239, 370), Some((12, 1, 169, 40)));
    assert_eq!(m.hit(239, 190), Some((11, 0, 209, 40)));
    assert!(m.raise(11, 0));
    assert_eq!(m.hit(239, 370), Some((11, 0, 209, 220)));
    assert_eq!(m.hit(239, 699), None);
    assert_eq!(m.open(), 2);
}

#[test]
fn a_window_belongs_to_whoever_made_it() {
    let mut m = desktop();
    // The notes name a window of the shell, and find nothing of their own.
    assert!(!m.with(12, 0, |w: Window| w));
    assert!(!m.raise(12, 0));
    assert!(!m.push(12, 0, Cmd::Blank));
    assert!(!m.reset(12, 0));
    assert_eq!(m.rejected, 4);
    assert!(m.with(11, 0, |w: Window| Window { rect: Rect { x: 0, y: 0, w: 10, h: 10 }, ..w }));
    assert_eq!(m.hit(5, 5), Some((11, 0, 5, 5)));
    assert_eq!(m.rejected, 4);
}

#[test]
fn windows_run_out() {
    let mut m = desktop();
    assert!(!m.create(11, 0, rect(0, 0, 1, 1), 0, b"again"));
    for id in 2..8 {
        assert!(m.create(1, id, rect(0, 0, 1, 1), 0, b"more"));
    }
    assert!(!m.create(1, 9, rect(0, 0, 1, 1), 0, b"one too many"));
    assert_eq!(m.open(), 8);
}

#[test]
fn damage_is_one_box() {
    let mut m = Wm::new();
    m.damage = Rect::empty();
    m.dirty(rect(10, 10, 5, 5));
    m.dirty(rect(100, 100, 5, 5));
    assert_eq!(m.damage, rect(10, 10, 95, 95));
    m.dirty_all();
    assert_eq!(m.damage, rect(0, 0, 480, 960));
}

#[test]
fn windows_are_painted_bottom_to_top() {
    let mut m = desktop();
    m.push(12, 1, Cmd::Fill { x: 5, y: 6, w: 20, h: 10, color: 7 });
    let mut bytes = [0u8; 40];
    bytes[..2].copy_from_slice(b"hi");
    m.push(12, 1, Cmd::Text { x: 1, y: 2, scale: 1, color: 9, len: 2, bytes });
    let mut p = Recorder::new();
    m.paint(&mut p);
    assert_eq!((p.ops.len(), m.composes), (8, 1));
    assert!(matches!(p.ops[0], Draw::Fill { x: 30, y: 150, w: 390, h: 250, color: 0xff16_1b22 }));
    assert!(matches!(p.ops[1], Draw::Fill { x: 30, y: 150, w: 390, h: 22, .. }));
    assert!(matches!(&p.ops[2], Draw::Text { x: 36, y: 157, bytes, .. } if bytes == b"JUNGEY SHELL"));
    assert!(matches!(p.ops[3], Draw::Fill { x: 70, y: 330, .. }));
    // What an application draws is below its title bar.
    assert!(matches!(p.ops[6], Draw::Fill { x: 75, y: 358, w: 20, h: 10, color: 7 }));
    assert!(matches!(&p.ops[7], Draw::Text { x: 71, y: 354, bytes, .. } if bytes == b"hi"));
    m.raise(11, 0);
    m.reset(12, 1);
    let mut p = Recorder::new();
    m.paint(&mut p);
    assert_eq!(p.ops.len(), 6);
    assert!(matches!(p.ops[0], Draw::Fill { x: 70, y: 330, .. }));
}

#[test]
fn a_title_bar_is_lighter() {
    assert_eq!(shade(0xff00_0000), 0xff55_5555);
    assert_eq!(shade(0x00ff_ffff), 0xffff_ffff);
    assert_eq!(shade(0xff16_1b22), 0xff63_676b);
}

#[test]
fn messages_of_an_application() {
    let mut m = Msg::new();
    m.b(0x20);
    m.be16(0x1234);
    m.le32(0x0a0b_0c0d);
    m.text("hi");
    assert_eq!(m.bytes, [0x20, 0x12, 0x34, 0x0d, 0x0c, 0x0b, 0x0a, 2, b'h', b'i']);
    let mut long = Msg::new();
    long.text("a text that is longer than the forty bytes that fit in one");
    assert_eq!((long.bytes.len(), long.bytes[0]), (41, 40));
    let mut full = Msg::new();
    for _ in 0..600 {
        full.b(1);
    }
    assert_eq!(full.bytes.len(), 512);
}

fn tap(ry: u16) -> [u8; 32] {
    let mut ev = [0u8; 32];
    ev[0] = EV_TAP;
    ev[4] = (ry >> 8) as u8;
    ev[5] = ry as u8;
    ev
}

#[test]
fn an_application_opens_its_window_and_answers_taps() {
    let a = shell();
    let mut s = Session::new();
    // There is no window yet for a tap to belong to.
    assert_eq!(s.run(&a, &tap(40), 7).0, Effect::Ignored);
    let mut ev = [0u8; 32];
    ev[0] = EV_START;
    let (effect, out) = s.run(&a, &ev, 1);
    assert_eq!(effect, Effect::Opened);
    assert_eq!(&out[0][..10], &[0x20, 0, 0, 30, 0, 150, 1, 134, 0, 250]);
    assert_eq!(out[1][..2], [0x25, 0]);
    assert_eq!(out.last().unwrap().last(), Some(&0x31));
    let (effect, out) = s.run(&a, &tap(220), 7);
    assert_eq!(effect, Effect::Row(5, true));
    assert_eq!(a.rows[5], "SLEEP");
    assert_eq!(out[0], [0x21, 0]);
    assert_eq!(s.run(&a, &tap(220), 7).0, Effect::Row(5, false));
    assert_eq!(s.run(&a, &tap(31), 7).0, Effect::TitleBar);
    assert_eq!(s.run(&a, &tap(240), 7).0, Effect::BelowTheRows);
    assert_eq!(s.run(&a, &tap(220), 6).0, Effect::Ignored);
    assert_eq!(s.taps, 4);
    assert_eq!(s.on, [false; 6]);
}

#[test]
fn the_notes_ask_for_what_is_not_theirs() {
    let a = notes();
    let mut s = Session::new();
    let mut ev = [0u8; 32];
    ev[0] = EV_START;
    let (_, out) = s.run(&a, &ev, 1);
    assert_eq!(out.last().unwrap(), &[0x22, 0, 0, 0, 0, 0, 0x31]);
    let drawn = jungey::app::draw(&a, &[true, false, false, false, false, false]);
    assert!(drawn.iter().all(|m| m.len() <= 366));
    assert_eq!(drawn[0][12..16], 0xffd2_9922u32.to_le_bytes());
    assert_eq!(s.run(&a, &tap(40), 7).0, Effect::Row(0, true));
    assert_eq!(s.run(&a, &tap(134), 7).0, Effect::BelowTheRows);
}

#[test]
fn a_finger_on_the_screen() {
    let x = Axis { min: 0, max: 32767 };
    assert_eq!((x.to_screen(0, 480), x.to_screen(32767, 480)), (0, 479));
    assert_eq!(x.to_screen(16384, 480), 16384 * 479 / 32767);
    assert_eq!((x.to_screen(-5, 480), x.to_screen(40000, 480)), (0, 479));
    assert_eq!(Axis { min: 0, max: 0 }.to_screen(9, 480), 479);
    let mut field = [0u8; 20];
    field[4..8].copy_from_slice(&32767u32.to_le_bytes());
    assert_eq!(Axis::axis(&field, 20), x);
    assert_eq!(Axis::axis(&field, 7), Axis { min: 0, max: 0 });
    field[..4].copy_from_slice(&40000u32.to_le_bytes());
    assert_eq!(Axis::axis(&field, 20), Axis { min: 0, max: 0 });
    field[..4].copy_from_slice(&(-100i32).to_le_bytes());
    assert_eq!(Axis::axis(&field, 20), Axis { min: -100, max: 32767 });
}

#[test]
fn a_gesture_is_forwarded_when_it_is_complete() {
    let axis = Axis { min: 0, max: 32767 };
    let d = Input::new(0x1000, axis, axis);
    let mut p = Pointer::new();
    assert_eq!(p.feed(&d, EV_SYN, 0, 0), None);
    assert_eq!(p.feed(&d, EV_ABS, ABS_X, 16384), None);
    assert_eq!(p.feed(&d, EV_ABS, ABS_Y, 32767), None);
    assert_eq!(p.feed(&d, EV_KEY, BTN_TOUCH, 1), None);
    assert_eq!(p.feed(&d, EV_SYN, 0, 0), Some([0x10, 0, 239, 3, 191, 1]));
    p.forwarded();
    assert_eq!((p.sent, p.dirty), (1, false));
    assert_eq!(p.feed(&d, EV_SYN, 0, 0), None);
    assert_eq!(p.feed(&d, EV_KEY, 0x111, 1), None);
    assert!(!p.dirty);
    p.feed(&d, EV_KEY, BTN_TOUCH, 0);
    assert_eq!(p.feed(&d, EV_SYN, 0, 0), Some([0x10, 0, 239, 3, 191, 0]));
}

#[test]
fn the_driver_forwards_gestures_until_nobody_listens() {
    let axis = Axis { min: 0, max: 32767 };
    let d = Input::new(0x1000, axis, axis);
    let mut p = Pointer::new();
    let mut events = vec![(3, 0, 32767), (3, 1, 0), (1, 0x110, 1), (0, 0, 0), (0, 0, 0)].into_iter();
    let mut sent: Vec<Vec<u8>> = Vec::new();
    let mut event = DriverEvent::Started;
    loop {
        event = match step(event) {
            DriverAction::Drain => loop {
                match events.next() {
                    None => break DriverEvent::Drained,
                    Some((kind, code, value)) => {
                        if let Some(m) = p.feed(&d, kind, code, value) {
                            break DriverEvent::Gesture(m);
                        }
                    }
                }
            },
            DriverAction::Send(m) => {
                sent.push(m.to_vec());
                p.forwarded();
                DriverEvent::Sent
            }
            DriverAction::SendEmpty => {
                sent.push(Vec::new());
                DriverEvent::SendFailed
            }
            DriverAction::Wait => DriverEvent::TimedOut,
            DriverAction::Stop => break,
        };
    }
    assert_eq!(sent, vec![vec![0x10, 0x01, 0xDF, 0x00, 0x00, 0x01], vec![]]);
    assert_eq!(step(DriverEvent::Interrupt), DriverAction::Drain);
}

#[test]
fn a_window_may_be_changed_in_any_way() {
    let mut m = desktop();
    m.damage = Rect::empty();
    let far = Rect { x: 470, y: 950, w: usize::MAX, h: usize::MAX };
    assert!(m.with(12, 1, |w: Window| Window { rect: far, used: false, ..w }));
    assert_eq!(m.damage, rect(70, 330, 410, 630));
    assert!(!m.with(12, 1, |w: Window| w));
    assert_eq!(far.clamp_to_screen(), rect(470, 950, 10, 10));
    assert!(far.contains(usize::MAX, usize::MAX));
    assert_eq!(rect(0, 0, 2, 2).union(&rect(8, 3, 1, 1)), rect(0, 0, 9, 4));
}

#[test]
fn events_come_out_of_their_buffers() {
    let axis = Axis { min: 0, max: 1 };
    let mut d = Input::new(0x10_0000, axis, axis);
    // Whatever the memory held, nothing in it is taken for an event.
    let mut mem = vec![0xffu8; 8192];
    let mut a = Input::attach(0x10_0000);
    for value in [18, 1, 8, 64] {
        a.step(&mut mem, value);
    }
    assert_eq!(a.wants(), None);
    d.stock(&mut mem);
    assert_eq!(d.avail_idx, 64);
    assert_eq!(&mem[16..24], &(0x10_0000u64 + 4096 + 8).to_le_bytes());
    assert_eq!(d.next_event(&mut mem), None);
    // The device puts an event in buffer 3 and says so.
    mem[4096 + 24..4096 + 32].copy_from_slice(&[3, 0, 1, 0, 9, 0, 0, 0]);
    mem[2052..2056].copy_from_slice(&3u32.to_le_bytes());
    mem[2050..2052].copy_from_slice(&1u16.to_le_bytes());
    assert_eq!(d.next_event(&mut mem), Some((3, 1, 9)));
    assert_eq!((d.last_used, d.avail_idx, d.events), (1, 65, 1));
    // Its buffer has gone back.
    assert_eq!(&mem[1026..1028], &65u16.to_le_bytes());
    assert_eq!(&mem[1028..1030], &3u16.to_le_bytes());
    assert_eq!(d.next_event(&mut mem), None);
}

fn font() -> Font {
    // A filled box for A, one dot for B.
    Font { first: b'A', last: b'B', glyphs: vec![[0xff; 8], [0x80, 0, 0, 0, 0, 0, 0, 0]] }
}

#[test]
fn drawing_into_a_framebuffer() {
    let mut fb = vec![0u32; PIXELS];
    jungey::gpudrv::clear(&mut fb, 5);
    assert!(fb.iter().all(|&p| p == 5));
    jungey::gpudrv::px(&mut fb, 2, 1, 6);
    assert_eq!(fb[482], 6);
    jungey::gpudrv::px(&mut fb, 480, 0, 7);
    jungey::gpudrv::px(&mut fb, 0, 960, 7);
    assert!(fb.iter().all(|&p| p != 7));
    jungey::gpudrv::rect(&mut fb, 478, 958, 10, 10, 8);
    assert_eq!(fb.iter().filter(|&&p| p == 8).count(), 4);
    jungey::gpudrv::glyph(&mut fb, &font(), b'a', 0, 10, 2, 9);
    assert_eq!(fb.iter().filter(|&&p| p == 9).count(), 256);
    jungey::gpudrv::glyph(&mut fb, &font(), b'Z', 100, 10, 2, 10);
    assert!(fb.iter().all(|&p| p != 10));
    jungey::gpudrv::text(&mut fb, &font(), b"BB", 100, 100, 1, 11);
    assert_eq!(fb.iter().filter(|&&p| p == 11).count(), 2);
    assert_eq!((fb[100 * 480 + 100], fb[100 * 480 + 108]), (11, 11));
}

#[test]
fn a_batch_of_commands_is_understood() {
    let mut f = Frame::new();
    assert!(f.clear(1).is_none());
    assert!(f.rect(1, 2, 3, 4, 5).is_none());
    assert!(f.text(6, 7, 2, 8, "AB").is_none());
    let (before, last) = f.present();
    assert!(before.is_none());
    assert_eq!(last.len(), 5 + 13 + 13 + 1);
    let (ops, stop) = decode(&last, last.len());
    assert!(!stop);
    assert_eq!(ops.len(), 4);
    assert!(matches!(ops[0], Op::Clear { color: 1 }));
    assert!(matches!(ops[1], Op::Rect { x: 1, y: 2, w: 3, h: 4, color: 5 }));
    assert!(matches!(&ops[2], Op::Text { x: 6, y: 7, scale: 2, color: 8, bytes } if bytes == b"AB"));
    assert!(matches!(ops[3], Op::Present));
    let mut fb = vec![0u32; PIXELS];
    for op in &ops {
        jungey::gpudrv::draw(&mut fb, &font(), op);
    }
    assert_eq!((fb[0], fb[2 * 480 + 1], fb[7 * 480 + 6]), (1, 5, 8));
    // A command that is cut off ends the batch.
    let (ops, _) = decode(&last[..10], 10);
    assert_eq!(ops.len(), 1);
    assert!(decode(&[0xff], 1).1);
}

#[test]
fn a_full_batch_is_sent_first() {
    let mut f = Frame::new();
    let mut sent = Vec::new();
    for _ in 0..800 {
        if let Some(b) = f.clear(0x0102_0304) {
            sent.push(b);
        }
    }
    assert_eq!(sent.len(), 1);
    assert_eq!((sent[0].len(), f.ops.len()), (3600, 400));
    let (_, last) = f.present();
    assert_eq!(last.len(), 401);
}

#[test]
fn commands_for_the_display_device() {
    let c = create_resource();
    assert_eq!(c.len(), 40);
    assert_eq!(&c[..4], &0x0101u32.to_le_bytes());
    assert_eq!(&c[32..40], &[0xe0, 1, 0, 0, 0xc0, 3, 0, 0]);
    let b = attach_backing(0x4000_0000);
    assert_eq!(&b[32..40], &0x4000_2000u64.to_le_bytes());
    assert_eq!(&b[40..44], &1_843_200u32.to_le_bytes());
    assert_eq!((set_scanout().len(), transfer().len(), flush().len()), (48, 56, 48));
    assert_eq!(&flush()[..4], &0x0104u32.to_le_bytes());
}

#[test]
fn a_command_is_offered_and_answered() {
    let mut g = Gpu::new(0x4000_0000);
    let mut mem = vec![0u8; 8192];
    g.submit(&mut mem, &flush());
    assert_eq!(&mem[4096..4100], &0x0104u32.to_le_bytes());
    assert_eq!(&mem[130..132], &1u16.to_le_bytes());
    assert_eq!(g.wait(&mem, 0), None);
    mem[2050] = 1;
    mem[4608..4612].copy_from_slice(&0x1100u32.to_le_bytes());
    assert_eq!(g.wait(&mem, 1), Some(true));
    g.submit(&mut mem, &transfer());
    assert_eq!(g.wait(&mem, 2), None);
    assert_eq!(g.wait(&mem, 16), Some(false));
    mem[2050] = 2;
    mem[4608..4612].copy_from_slice(&0x1200u32.to_le_bytes());
    assert_eq!(g.wait(&mem, 3), Some(false));
    g.presented(true);
    g.presented(false);
    assert_eq!((g.frames, acknowledgement(&g)), (1, [0, 1]));
}

#[test]
fn the_kernel_talks_to_the_display_server() {
    let mut channels = Channels::new();
    let mut s = Scheduler::new(0, 0);
    let request = jungey::ipc::create(&mut channels);
    let reply = jungey::ipc::create(&mut channels);
    let mut c = Client::new();
    assert!(!attached(&c));
    assert_eq!(begin(&c, &mut channels, &mut s, vec![1], 0), None);
    attach(&mut c, request, reply);
    assert!(attached(&c));
    assert_eq!(begin(&c, &mut channels, &mut s, vec![], 0), None);
    assert_eq!(begin(&c, &mut channels, &mut s, compose(), 10), Some(610));
    let m = jungey::ipc::try_recv(&mut channels, request).unwrap();
    assert_eq!((m.from, m.bytes), (usize::MAX, vec![0x31]));
    assert!(matches!(poll(&c, &mut channels, 610, 610), Poll::Wait));
    assert!(matches!(poll(&c, &mut channels, 610, 611), Poll::TimedOut));
    jungey::ipc::send(&mut channels, &mut s, reply, 3, vec![0, 5, 3, 1, 1, 0, 2]).unwrap();
    match poll(&c, &mut channels, 610, 611) {
        Poll::Reply(b) => {
            let st = server_stats(&b);
            let want = ServerStats {
                frames: 5,
                taps_routed: 3,
                taps_on_nothing: 1,
                rejected: 1,
                windows: 2,
            };
            assert_eq!(st, Some(want));
            assert_eq!(wait_for_windows(st, 2, 0, 9), Opening::Open);
            assert_eq!(wait_for_windows(st, 3, 0, 9), Opening::AskAgain);
            assert_eq!(wait_for_windows(st, 2, 9, 9), Opening::GaveUp);
        }
        _ => panic!("no reply"),
    }
    assert_eq!(server_stats(&[0; 6]), None);
    assert_eq!(introduce(12), [0x30, 12, 0, 0, 0]);
    assert_eq!((request_stats(), shutdown()), (vec![0x32], vec![0xff]));
    presented(&mut c, true);
    presented(&mut c, false);
    assert_eq!(frames(&c), 1);
    assert!(start_app_window(&mut channels, &mut s, request));
    assert!(!start_app_window(&mut channels, &mut s, 9));
    assert_eq!(jungey::ipc::try_recv(&mut channels, request).unwrap().bytes, [0x41]);
}
