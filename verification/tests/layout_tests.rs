use oxwm::{tile, GapConfig, Rect};

fn no_gaps() -> GapConfig {
    GapConfig {
        enabled: false,
        inner_horizontal: 0,
        inner_vertical: 0,
        outer_horizontal: 0,
        outer_vertical: 0,
    }
}

fn gaps(v: u32) -> GapConfig {
    GapConfig {
        enabled: true,
        inner_horizontal: v,
        inner_vertical: v,
        outer_horizontal: v,
        outer_vertical: v,
    }
}

#[test]
fn three_clients_master_stack() {
    let usable = Rect { x: 0, y: 0, width: 1200, height: 800 };
    let r = tile(3, &usable, 550, &no_gaps());
    assert_eq!(r.len(), 3);
    assert_eq!(r[0], Rect { x: 0, y: 0, width: 660, height: 800 });
    assert_eq!(r[1], Rect { x: 660, y: 0, width: 540, height: 400 });
    assert_eq!(r[2], Rect { x: 660, y: 400, width: 540, height: 400 });
}

#[test]
fn zero_clients_is_empty() {
    let usable = Rect { x: 0, y: 0, width: 1200, height: 800 };
    let r = tile(0, &usable, 550, &no_gaps());
    assert!(r.is_empty());
}

#[test]
fn single_client_fills_usable_minus_outer_gaps() {
    let usable = Rect { x: 0, y: 0, width: 1200, height: 800 };
    let r = tile(1, &usable, 550, &gaps(6));
    assert_eq!(r.len(), 1);
    assert_eq!(r[0], Rect { x: 6, y: 6, width: 1188, height: 788 });
}

#[test]
fn identical_inputs_identical_output() {
    let usable = Rect { x: 13, y: 29, width: 1111, height: 777 };
    let g = gaps(4);
    let a = tile(5, &usable, 600, &g);
    let b = tile(5, &usable, 600, &g);
    assert_eq!(a, b);
}

#[test]
fn partition_without_gaps() {
    let usable = Rect { x: 0, y: 0, width: 1000, height: 700 };
    let r = tile(5, &usable, 500, &no_gaps());
    assert_eq!(r.len(), 5);
    // master column spans the full height on the left
    assert_eq!(r[0].x, 0);
    assert_eq!(r[0].y, 0);
    assert_eq!(r[0].height, 700);
    // stack column exactly fills the remaining width
    for i in 1..5 {
        assert_eq!(r[i].x as u32, r[0].width);
        assert_eq!(r[0].width + r[i].width, 1000);
    }
    // rows are contiguous from top to bottom
    assert_eq!(r[1].y, 0);
    for i in 1..4 {
        assert_eq!(r[i].y + r[i].height as i32, r[i + 1].y);
    }
    assert_eq!(r[4].y + r[4].height as i32, 700);
    // heights of the stack sum to the whole height
    let total: u32 = (1..5).map(|i| r[i].height).sum();
    assert_eq!(total, 700);
}

#[test]
fn two_clients_with_gaps() {
    let usable = Rect { x: 0, y: 0, width: 100, height: 100 };
    let r = tile(2, &usable, 500, &gaps(5));
    assert_eq!(r.len(), 2);
    // work area is 90x90 at (5,5); master gets (90-5)*500/1000 = 42
    assert_eq!(r[0], Rect { x: 5, y: 5, width: 42, height: 90 });
    assert_eq!(r[1], Rect { x: 52, y: 5, width: 43, height: 90 });
}

#[test]
fn gaps_disabled_ignores_configured_values() {
    let usable = Rect { x: 0, y: 0, width: 1200, height: 800 };
    let mut g = gaps(6);
    g.enabled = false;
    let with_disabled = tile(3, &usable, 550, &g);
    let with_zero = tile(3, &usable, 550, &no_gaps());
    assert_eq!(with_disabled, with_zero);
}

#[test]
fn uneven_heights_spread_remainder() {
    let usable = Rect { x: 0, y: 0, width: 900, height: 100 };
    let r = tile(4, &usable, 500, &no_gaps());
    // 100 split over 3 stack rows: 33 + 34 + 33, contiguous
    let total: u32 = (1..4).map(|i| r[i].height).sum();
    assert_eq!(total, 100);
    assert_eq!(r[1].y, 0);
    assert_eq!(r[1].y + r[1].height as i32, r[2].y);
    assert_eq!(r[2].y + r[2].height as i32, r[3].y);
    assert_eq!(r[3].y + r[3].height as i32, 100);
}
