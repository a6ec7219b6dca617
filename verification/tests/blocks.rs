use sismokaos::blocks::BlockCursor;
use sismokaos::decimation::{decimate, decimation_phase};

#[test]
fn phase_puts_block_start_on_grid() {
    assert_eq!(decimation_phase(0, 5), 0);
    assert_eq!(decimation_phase(7, 5), 3);
    assert_eq!(decimation_phase(10, 5), 0);
    assert_eq!(decimation_phase(11, 1), 0);
    for g in 0..50usize {
        for f in 1..9usize {
            let p = decimation_phase(g, f);
            assert!(p < f);
            assert_eq!((g + p) % f, 0);
        }
    }
}

#[test]
fn no_plan_when_all_buffers_empty() {
    let c = BlockCursor::new();
    assert!(c.plan(0, 0, 0, 100, 10, 3).is_none());
}

#[test]
fn block_takes_longest_buffer_capped_at_block_len() {
    let c = BlockCursor::new();
    let p = c.plan(40, 70, 55, 100, 10, 3).unwrap();
    assert_eq!(p.take, 70);
    assert_eq!(p.lead, 0);
    assert_eq!(p.skip, 0);
    assert_eq!(p.kept, 24); // ceil(70 / 3)
    assert_eq!(p.context_len, 10);
    let q = c.plan(400, 70, 55, 100, 10, 3).unwrap();
    assert_eq!(q.take, 100);
    let r = c.plan(4, 0, 0, 100, 10, 3).unwrap();
    assert_eq!(r.take, 4);
    assert_eq!(r.context_len, 4);
}

/// Cutting a stream into blocks and decimating each with the planned skip
/// keeps exactly the global multiples of the factor.
#[test]
fn blocks_keep_global_grid() {
    let factor = 4usize;
    let total = 103usize;
    let stream: Vec<usize> = (0..total).collect();
    let mut cursor = BlockCursor::new();
    let mut pos = 0usize;
    let mut tail: Vec<usize> = Vec::new();
    let mut kept = Vec::new();
    while pos < total {
        let remaining = total - pos;
        let plan = cursor.plan(remaining, remaining, remaining, 30, 6, factor).unwrap();
        assert_eq!(plan.global_start, pos);
        let mut combined = tail[tail.len() - plan.lead..].to_vec();
        combined.extend_from_slice(&stream[pos..pos + plan.take]);
        let out = decimate(&combined, plan.skip, factor);
        assert_eq!(out.len(), plan.kept);
        kept.extend(out);
        tail = stream[pos + plan.take - plan.context_len..pos + plan.take].to_vec();
        pos += plan.take;
        cursor.advance(&plan);
    }
    let expected: Vec<usize> = (0..total).filter(|i| i % factor == 0).collect();
    assert_eq!(kept, expected);
}

#[test]
fn reset_context_drops_lead_but_keeps_position() {
    let mut c = BlockCursor::new();
    let p = c.plan(50, 50, 50, 20, 5, 3).unwrap();
    c.advance(&p);
    assert_eq!(c.global_offset(), 20);
    assert_eq!(c.lead(), 5);
    c.reset_context();
    assert_eq!(c.global_offset(), 20);
    assert_eq!(c.lead(), 0);
    let q = c.plan(30, 30, 30, 20, 5, 3).unwrap();
    assert_eq!(q.skip, 1); // (3 - 20 % 3) % 3
}
