use vector_bench::arc::scene::InstanceData as ArcInstance;
use vector_bench::arc::segment::GpuSegment;
use vector_bench::fpu::{Fpu32, Fpu64, Op32, Op64};
use vector_bench::number::{Real32, Real64};
use vector_bench::slug::outline::GpuCurve;
use vector_bench::slug::scene::InstanceData as SlugInstance;
use vector_bench::stats::{
    billions_per_second, mebibytes, millions_per_second, FrameMetric, FrameWindow,
};
use vector_bench::surface::{
    choose_present_mode, Action, FrameAction, PresentMode, Surface, SurfaceStatus, WindowEvent,
};
use vector_bench::timing::{elapsed_ms, read_timestamps, FramePlan, GpuTimer, TimestampSupport};
use vector_bench::upload::{
    arc_vram_bytes, buffer_bytes, buffer_words, slug_vram_bytes, Record, Uniforms, BOX_AT, COLOR_AT,
    GLYPH_AT, POSITION_AT, SCALE_AT,
};

fn r(x: f32) -> Real32 {
    Real32 { bits: x.to_bits() }
}

fn f(x: Real32) -> f32 {
    f32::from_bits(x.bits)
}

fn host32(op: Op32) -> Real32 {
    let x = match op {
        Op32::Add(a, b) => f(a) + f(b),
        Op32::Sub(a, b) => f(a) - f(b),
        Op32::Mul(a, b) => f(a) * f(b),
        Op32::Div(a, b) => f(a) / f(b),
        Op32::Sqrt(a) => f(a).sqrt(),
        Op32::FromUint(n) => n as f32,
        Op32::FromInt(n) => n as f32,
        Op32::Narrow(a) => f64::from_bits(a.bits) as f32,
    };
    r(if x.is_nan() { f32::NAN } else { x })
}

fn w(x: f64) -> Real64 {
    Real64 { bits: x.to_bits() }
}

fn d(x: Real64) -> f64 {
    f64::from_bits(x.bits)
}

fn host64(op: Op64) -> Real64 {
    let x = match op {
        Op64::Add(a, b) => d(a) + d(b),
        Op64::Mul(a, b) => d(a) * d(b),
        Op64::Div(a, b) => d(a) / d(b),
        Op64::FromUint(n) => n as f64,
        Op64::Widen(a) => f(a) as f64,
    };
    w(if x.is_nan() { f64::NAN } else { x })
}

fn four(x: f32) -> [Real32; 4] {
    [r(x), r(x + 1.0), r(x + 2.0), r(x + 3.0)]
}

fn bits(xs: &[f32]) -> Vec<u32> {
    xs.iter().map(|x| x.to_bits()).collect()
}

#[test]
fn records_are_laid_out_word_by_word() {
    let segment = GpuSegment {
        kind: 1,
        sign: r(2.0),
        direction: r(3.0),
        x_max: r(4.0),
        param0: four(5.0),
        param1: four(9.0),
    };
    let mut want = vec![1];
    want.extend(bits(&[2.0, 3.0, 4.0, 5.0, 6.0, 7.0, 8.0, 9.0, 10.0, 11.0, 12.0]));
    assert_eq!(buffer_words(&vec![segment]), want);
    let twice = buffer_words(&vec![segment, segment]);
    assert_eq!(twice.len(), 24);
    assert_eq!(twice[12..], want[..]);

    let curve = GpuCurve { p12: four(1.0), p3: four(5.0) };
    assert_eq!(buffer_words(&vec![curve]), bits(&[1.0, 2.0, 3.0, 4.0, 5.0, 6.0, 7.0, 8.0]));

    let arc = ArcInstance {
        pos: [r(1.0), r(2.0)],
        scale: r(3.0),
        band_start: 4,
        color: four(5.0),
        bbox: four(9.0),
    };
    let mut want = bits(&[1.0, 2.0, 3.0]);
    want.push(4);
    want.extend(bits(&[5.0, 6.0, 7.0, 8.0, 9.0, 10.0, 11.0, 12.0]));
    assert_eq!(buffer_words(&vec![arc]), want);

    let slug = SlugInstance { pos: [r(1.0), r(2.0)], scale: r(3.0), glyph_id: 7, color: four(5.0) };
    let mut want = bits(&[1.0, 2.0, 3.0]);
    want.push(7);
    want.extend(bits(&[5.0, 6.0, 7.0, 8.0]));
    assert_eq!(buffer_words(&vec![slug]), want);

    assert_eq!(buffer_words(&vec![[1u32, 2], [3, 4]]), [1, 2, 3, 4]);
    assert_eq!(buffer_words(&vec![four(1.0)]), bits(&[1.0, 2.0, 3.0, 4.0]));
    assert_eq!(buffer_words(&vec![9u32, 8]), [9, 8]);
    let uniforms = Uniforms { screen_size: [r(1.0), r(2.0)], zoom: r(3.0), time: r(4.0) };
    assert_eq!(buffer_words(&vec![uniforms]), bits(&[1.0, 2.0, 3.0, 4.0]));
}

#[test]
fn fields_stand_where_the_shader_looks_for_them() {
    assert_eq!(GpuSegment::byte_stride(), 48);
    assert_eq!(GpuCurve::byte_stride(), 32);
    assert_eq!(ArcInstance::byte_stride(), 48);
    assert_eq!(SlugInstance::byte_stride(), 32);
    assert_eq!(<[u32; 2]>::byte_stride(), 8);
    assert_eq!(<[Real32; 4]>::byte_stride(), 16);
    assert_eq!(u32::byte_stride(), 4);
    assert_eq!(Uniforms::byte_stride(), 16);

    let arc = ArcInstance {
        pos: [r(1.0), r(2.0)],
        scale: r(3.0),
        band_start: 4,
        color: four(5.0),
        bbox: four(9.0),
    };
    let words = buffer_words(&vec![arc]);
    assert_eq!(4 * words.len(), ArcInstance::byte_stride());
    let at = |offset: u64| words[offset as usize / 4];
    assert_eq!(at(POSITION_AT), 1.0f32.to_bits());
    assert_eq!(at(SCALE_AT), 3.0f32.to_bits());
    assert_eq!(at(GLYPH_AT), 4);
    assert_eq!(at(COLOR_AT), 5.0f32.to_bits());
    assert_eq!(at(BOX_AT), 9.0f32.to_bits());
}

#[test]
fn buffers_are_the_memory_of_their_words() {
    let mut want = Vec::new();
    want.extend(0x0102_0304u32.to_ne_bytes());
    want.extend(0xfffe_fdfcu32.to_ne_bytes());
    assert_eq!(buffer_bytes(&vec![0x0102_0304u32, 0xfffe_fdfc]), want);
    assert_eq!(buffer_bytes(&Vec::<u32>::new()), Vec::<u8>::new());
}

#[test]
fn video_memory_is_the_sum_of_the_buffers() {
    assert_eq!(arc_vram_bytes(1, 1, 1), 48 + 8 + 48);
    assert_eq!(arc_vram_bytes(10, 100, 1000), 480 + 800 + 48000);
    assert_eq!(slug_vram_bytes(1, 1, 1, 1, 1), 32 + 4 + 16 + 8 + 32);
    assert_eq!(slug_vram_bytes(1, 10, 100, 1000, 10000), 32 + 40 + 1600 + 8000 + 320000);
    let curve = GpuCurve { p12: four(1.0), p3: four(5.0) };
    assert_eq!(slug_vram_bytes(2, 0, 0, 0, 0), buffer_bytes(&vec![curve, curve]).len());
    let v = Fpu64::new(host64);
    assert_eq!(d(mebibytes(&v, 3 * 1024 * 1024)), 3.0);
    assert_eq!(d(mebibytes(&v, 512 * 1024)), 0.5);
}

fn window(cpu: &[f32]) -> FrameWindow {
    let mut window = FrameWindow::new();
    for t in cpu {
        window.record(FrameMetric { cpu_ms: r(*t), gpu_ms: None });
    }
    window
}

#[test]
fn a_window_of_frames_is_summed_up() {
    let u = Fpu32::new(host32);
    let v = Fpu64::new(host64);
    let mut frames = FrameWindow::new();
    for i in 0..100 {
        // The times come in no order.
        let t = (i * 37 % 100 + 1) as f32;
        let gpu_ms = if i < 2 { Some(r(3.0 + i as f32)) } else { None };
        frames.record(FrameMetric { cpu_ms: r(t), gpu_ms });
    }
    assert_eq!(frames.gpu.len(), 2);
    assert!(frames.is_comparable());
    let s = frames.summarize(&u, &v, w(2.0)).unwrap();
    assert_eq!(d(s.fps), 50.0);
    assert_eq!(d(s.fps_1pct_low), 10.0);
    assert_eq!(f(s.avg_cpu_ms), 50.5);
    assert_eq!(f(s.avg_gpu_ms), 3.5);
    assert_eq!(frames.cpu.len(), 0);
    assert_eq!(frames.gpu.len(), 0);
    assert_eq!(frames.summarize(&u, &v, w(2.0)), None);
}

#[test]
fn the_slowest_percent_is_left_out_of_a_long_window() {
    let u = Fpu32::new(host32);
    let v = Fpu64::new(host64);
    let mut times = vec![5.0; 198];
    times.push(1000.0);
    times.push(20.0);
    let s = window(&times).summarize(&u, &v, w(1.0)).unwrap();
    assert_eq!(d(s.fps_1pct_low), 50.0);
    assert_eq!(f(s.avg_gpu_ms), 0.0);
    let s = window(&[0.0]).summarize(&u, &v, w(1.0)).unwrap();
    assert_eq!(d(s.fps_1pct_low), 0.0);
}

#[test]
fn without_time_nothing_is_summed_up() {
    let u = Fpu32::new(host32);
    let v = Fpu64::new(host64);
    let mut frames = window(&[1.0, 2.0]);
    assert_eq!(frames.summarize(&u, &v, w(0.0)), None);
    assert_eq!(frames.summarize(&u, &v, w(-1.0)), None);
    assert_eq!(frames.cpu.len(), 2);
    // Times that cannot be sorted do no harm while nothing is summed up.
    let mut odd = window(&[1.0, f32::NAN]);
    assert_eq!(odd.summarize(&u, &v, w(0.0)), None);
    assert_eq!(odd.cpu.len(), 2);
    assert!(!window(&[1.0, f32::NAN]).is_comparable());
    assert!(window(&[f32::NAN]).is_comparable());
}

#[test]
fn rates_per_second() {
    let v = Fpu64::new(host64);
    assert_eq!(d(millions_per_second(&v, w(2_500_000.0), w(60.0))), 150.0);
    assert_eq!(d(billions_per_second(&v, w(2_500_000.0), w(60.0))), 0.15);
}

#[test]
fn timestamps_are_read_back() {
    let ticks: [u64; 2] = [0x0102_0304_0506_0708, 0xf000_0000_0000_0001];
    let bytes: &[u8] = bytemuck::cast_slice(&ticks);
    assert_eq!(read_timestamps(bytes), Some((ticks[0], ticks[1])));
    assert_eq!(read_timestamps(&bytes[..8]), None);
    assert_eq!(read_timestamps(&bytes[..15]), None);
    assert_eq!(read_timestamps(&bytes[..0]), None);
    // Further words do not matter, nor does where the buffer starts.
    let more: [u64; 4] = [9, ticks[0], ticks[1], 9];
    let shifted: &[u8] = bytemuck::cast_slice(&more);
    assert_eq!(read_timestamps(&shifted[8..]), Some((ticks[0], ticks[1])));
    let mut odd = vec![0u8];
    odd.extend(bytes);
    assert_eq!(read_timestamps(&odd[1..]), Some((ticks[0], ticks[1])));
    assert_eq!(read_timestamps(&odd), None);
}

#[test]
fn ticks_become_milliseconds() {
    let u = Fpu32::new(host32);
    let v = Fpu64::new(host64);
    assert_eq!(elapsed_ms(&u, &v, 1000, 2_001_000, r(0.5)).map(f), Some(1.0));
    assert_eq!(elapsed_ms(&u, &v, 7, 7, r(0.5)).map(f), Some(0.0));
    assert_eq!(elapsed_ms(&u, &v, 8, 7, r(0.5)), None);
}

fn support(has_ts: bool, has_ts_encoder: bool, has_ts_passes: bool) -> TimestampSupport {
    TimestampSupport { has_ts, has_ts_encoder, has_ts_passes }
}

#[test]
fn timestamps_need_a_place_to_be_written() {
    assert!(support(true, true, false).supports_timestamps());
    assert!(support(true, false, true).supports_timestamps());
    assert!(!support(true, false, false).supports_timestamps());
    assert!(!support(false, true, true).supports_timestamps());
}

#[test]
fn one_frame_is_measured_at_a_time() {
    let mut t = GpuTimer::new(support(true, true, true));
    let plan = t.plan();
    assert_eq!(plan, FramePlan { use_ts: true, pass_writes: true, encoder_writes: false });
    let m = t.end_frame(plan, r(1.0));
    assert_eq!(m, FrameMetric { cpu_ms: r(1.0), gpu_ms: None });
    assert!(t.is_mapping);
    let plan = t.plan();
    assert_eq!(plan, FramePlan { use_ts: false, pass_writes: false, encoder_writes: false });
    t.end_frame(plan, r(2.0));
    assert!(t.is_mapping);
    t.finish_mapping(Some(r(0.25)));
    assert!(!t.is_mapping);
    let plan = t.plan();
    assert!(plan.use_ts);
    assert_eq!(t.end_frame(plan, r(3.0)).gpu_ms, Some(r(0.25)));
    t.finish_mapping(None);
    let plan = t.plan();
    assert_eq!(t.end_frame(plan, r(4.0)).gpu_ms, None);
    let encoder = GpuTimer::new(support(true, true, false)).plan();
    assert_eq!(encoder, FramePlan { use_ts: true, pass_writes: false, encoder_writes: true });
    let none = GpuTimer::new(support(true, false, false)).plan();
    assert_eq!(none, FramePlan { use_ts: false, pass_writes: false, encoder_writes: false });
}

#[test]
fn frames_are_shown_as_fast_as_they_come() {
    use_modes(&[PresentMode::Other, PresentMode::Mailbox, PresentMode::Immediate], 2);
    use_modes(&[PresentMode::Other, PresentMode::Other, PresentMode::Mailbox], 2);
    use_modes(&[PresentMode::Other, PresentMode::Other], 0);
    use_modes(&[PresentMode::Immediate, PresentMode::Immediate], 0);
}

fn use_modes(modes: &[PresentMode], want: usize) {
    assert_eq!(choose_present_mode(&modes.to_vec()), want);
}

#[test]
fn the_surface_follows_the_window() {
    let u = Fpu32::new(host32);
    let mut s = Surface::new(0, 7);
    assert_eq!(s, Surface { width: 1, height: 7 });
    assert_eq!(s.on_event(WindowEvent::Resized(30, 40)), Action::Reconfigure);
    assert_eq!(s, Surface { width: 30, height: 40 });
    assert_eq!(s.on_event(WindowEvent::Resized(0, 40)), Action::Nothing);
    assert_eq!(s.on_event(WindowEvent::Resized(30, 0)), Action::Nothing);
    assert_eq!(s, Surface { width: 30, height: 40 });
    assert_eq!(s.on_event(WindowEvent::CloseRequested), Action::Exit);
    assert_eq!(s.on_event(WindowEvent::RedrawRequested), Action::Draw);
    assert_eq!(s.on_event(WindowEvent::AboutToWait), Action::RequestRedraw);
    assert_eq!(s.on_event(WindowEvent::Other), Action::Nothing);
    assert_eq!(s.size(&u), [r(30.0), r(40.0)]);
    let uniforms = s.uniforms(&u);
    assert_eq!(uniforms.screen_size, [r(30.0), r(40.0)]);
    assert_eq!((f(uniforms.zoom), f(uniforms.time)), (1.0, 0.0));
}

#[test]
fn a_frame_without_a_texture_is_left_out() {
    let s = Surface::new(3, 4);
    assert_eq!(s.on_acquire(SurfaceStatus::Ready), FrameAction::Render);
    assert_eq!(s.on_acquire(SurfaceStatus::Outdated), FrameAction::ReconfigureAndSkip);
    assert_eq!(s.on_acquire(SurfaceStatus::Lost), FrameAction::ReconfigureAndSkip);
    assert_eq!(s.on_acquire(SurfaceStatus::Timeout), FrameAction::Skip);
    assert_eq!(s.on_acquire(SurfaceStatus::OutOfMemory), FrameAction::Exit);
    let empty = Surface { width: 0, height: 4 };
    assert_eq!(empty.on_acquire(SurfaceStatus::Lost), FrameAction::Skip);
}
