use sismokaos::windows::{window_id, WindowScheduler};

/// Mirrors the feature loop: starts are taken from a buffer that grows by
/// each chunk and is drained by what the batch consumed.
fn run(chunks: &[usize], win: usize, step: usize) -> (Vec<usize>, WindowScheduler) {
    let mut s = WindowScheduler::new(win, step);
    let mut absolute = Vec::new();
    for &c in chunks {
        assert!(s.can_take(c));
        let b = s.take_windows(c);
        for (j, &st) in b.starts.iter().enumerate() {
            assert_eq!(b.offset + st, (b.first_index + j) * step);
            absolute.push(b.offset + st);
        }
    }
    (absolute, s)
}

#[test]
fn windows_step_through_the_stream() {
    let (starts, s) = run(&[1000], 200, 50);
    assert_eq!(starts, (0..17).map(|k| k * 50).collect::<Vec<_>>());
    assert_eq!(s.windows_emitted(), 17);
    assert_eq!(s.global_offset(), 850);
    assert_eq!(s.buffered(), 150);
}

#[test]
fn windows_do_not_depend_on_chunking() {
    let (a, sa) = run(&[1000, 7, 333], 200, 50);
    let (b, sb) = run(&[1, 2, 3, 1334], 200, 50);
    let (c, sc) = run(&[1340], 200, 50);
    assert_eq!(a, b);
    assert_eq!(a, c);
    assert_eq!(sa.windows_emitted(), sc.windows_emitted());
    assert_eq!(sb.buffered(), sc.buffered());
}

#[test]
fn too_short_stream_yields_no_window() {
    let (starts, s) = run(&[50, 60, 89], 200, 50);
    assert!(starts.is_empty());
    assert_eq!(s.windows_emitted(), 0);
    assert_eq!(s.buffered(), 199);
}

#[test]
fn step_longer_than_window_can_overrun() {
    let s = WindowScheduler::new(2, 20);
    // One window at 0 fits, but stepping to 20 passes the end of 10 samples.
    assert!(!s.can_take(10));
    // With 25 buffered the window at 20 fits, and the step to 40 passes the end.
    assert!(!s.can_take(25));
    // With 21 buffered only the window at 0 fits and the step to 20 stays inside.
    assert!(s.can_take(21));
    let s2 = WindowScheduler::new(2, 9);
    assert!(s2.can_take(10));
}

#[test]
fn window_ids_are_zero_padded_and_one_based() {
    assert_eq!(window_id("station", 0), "station_w01");
    assert_eq!(window_id("station", 8), "station_w09");
    assert_eq!(window_id("station", 9), "station_w10");
    assert_eq!(window_id("x", 122), "x_w123");
    assert_eq!(window_id("", 99999), "_w100000");
}
