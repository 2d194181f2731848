use lightdance_export::channel_table::ChannelTable;
use lightdance_export::color::alpha;
use lightdance_export::compile::{control_dat, frame_dat, output_parts};
use lightdance_export::control::{encode_control_dat, sorted_starts};
use lightdance_export::frames::{resolve_frames, FramePlan, Instruction};
use lightdance_export::gradient::{build_effect, place_bulbs, Stop};
use lightdance_export::interpolate::interpolate_gradient;
use lightdance_export::order::channel_order;
use lightdance_export::plan::ShowRecords;
use lightdance_export::records::{ColorRecord, ControlKind, ControlRecord, StopRecord};
use lightdance_export::types::{Color, CompileError, GetControlDatQuery, LEDPart, Rgba};
use lightdance_export::wire::{encode_frame_dat, parse_frame_dat, write_little_endian};

fn rgba(r: i32, g: i32, b: i32, a: i32) -> Rgba {
    Rgba { r, g, b, a }
}

fn query(of: &[(&str, i32)], led: &[(&str, i32, i32)], merge: &[(&str, &[&str])]) -> GetControlDatQuery {
    GetControlDatQuery {
        dancer: "2_feng".to_string(),
        of_parts: of.iter().map(|(n, id)| (n.to_string(), *id)).collect(),
        led_parts: led.iter().map(|(n, id, len)| (n.to_string(), LEDPart::new(*id, *len))).collect(),
        led_merge: merge
            .iter()
            .map(|(n, ps)| (n.to_string(), ps.iter().map(|p| p.to_string()).collect()))
            .collect(),
    }
}

fn control(id: i32, start: i32, part: &str, kind: ControlKind, color_id: Option<i32>, a: Option<i32>, effect_id: Option<i32>) -> ControlRecord {
    ControlRecord { id, start, fade: false, part_name: part.to_string(), kind, color_id, alpha: a, effect_id }
}

fn palette() -> Vec<ColorRecord> {
    vec![
        ColorRecord { id: 1, color: Color { r: 255, g: 0, b: 0 } },
        ColorRecord { id: 2, color: Color { r: 0, g: 0, b: 255 } },
        ColorRecord { id: 3, color: Color { r: 10, g: 20, b: 30 } },
    ]
}

#[test]
fn channel_table_lookups() {
    let t = ChannelTable::init();
    assert_eq!(t.get_part_id(&"cloak_out".to_string()), Some(0));
    assert_eq!(t.get_part_id(&"skirt_bottom_top".to_string()), Some(30));
    assert_eq!(t.get_part_id(&"shoes_right_front".to_string()), Some(38));
    assert_eq!(t.get_part_id(&"mask_LED".to_string()), Some(0));
    assert_eq!(t.get_part_id(&"hat_main_LED".to_string()), Some(5));
    assert_eq!(t.get_part_id(&"tail".to_string()), None);
}

#[test]
fn channel_order_puts_unknown_first_and_is_stable() {
    let t = ChannelTable::init();
    let names: Vec<String> = ["cross", "tail", "cloak_out", "wing", "belt_left"].iter().map(|s| s.to_string()).collect();
    assert_eq!(channel_order(&t, &names), vec![1, 3, 2, 4, 0]);
}

#[test]
fn little_endian_bytes() {
    let mut v = vec![9u8];
    write_little_endian(&0x0403_0201, &mut v);
    assert_eq!(v, vec![9, 1, 2, 3, 4]);
}

#[test]
fn alpha_extremes_and_scaling() {
    assert_eq!(alpha(&rgba(200, 100, 50, 0)), Color { r: 0, g: 0, b: 0 });
    assert_eq!(alpha(&rgba(200, 100, 50, 255)), Color { r: 200, g: 100, b: 50 });
    assert_eq!(alpha(&rgba(200, 100, 51, 128)), Color { r: 100, g: 50, b: 25 });
}

#[test]
fn effect_seeds_unset_slots_with_first_stop() {
    let stops = vec![
        Stop { position: 1, value: rgba(1, 2, 3, 4) },
        Stop { position: 3, value: rgba(5, 6, 7, 8) },
    ];
    let v = build_effect(5, &stops).unwrap();
    assert_eq!(v.len(), 5);
    assert_eq!(v, vec![rgba(1, 2, 3, 4), rgba(1, 2, 3, 4), rgba(1, 2, 3, 4), rgba(5, 6, 7, 8), rgba(1, 2, 3, 4)]);
}

#[test]
fn effect_length_matches_strip() {
    for len in [1usize, 7, 28] {
        let stops = vec![Stop { position: 0, value: rgba(9, 9, 9, 9) }];
        assert_eq!(build_effect(len, &stops).unwrap().len(), len);
    }
}

#[test]
fn effect_stop_out_of_strip_fails() {
    let stops = vec![Stop { position: 0, value: rgba(1, 1, 1, 1) }, Stop { position: 5, value: rgba(1, 1, 1, 1) }];
    assert_eq!(build_effect(5, &stops), Err(CompileError::PositionOutOfBounds));
    assert_eq!(place_bulbs(5, &stops), Err(CompileError::PositionOutOfBounds));
}

#[test]
fn single_stop_fills_strip() {
    let mut s = vec![None; 6];
    s[2] = Some(rgba(40, 50, 60, 70));
    assert_eq!(interpolate_gradient(&s), vec![rgba(40, 50, 60, 70); 6]);
}

#[test]
fn two_stops_make_linear_ramp() {
    let mut s = vec![None; 5];
    s[0] = Some(rgba(0, 100, 200, 255));
    s[4] = Some(rgba(100, 100, 0, 55));
    let r = interpolate_gradient(&s);
    assert_eq!(
        r,
        vec![
            rgba(0, 100, 200, 255),
            rgba(25, 100, 150, 205),
            rgba(50, 100, 100, 155),
            rgba(75, 100, 50, 105),
            rgba(100, 100, 0, 55),
        ]
    );
    for i in 1..r.len() {
        assert!(r[i - 1].r <= r[i].r && r[i - 1].b >= r[i].b && r[i - 1].a >= r[i].a);
    }
}

#[test]
fn interpolation_between_and_outside_stops() {
    let s = vec![None, Some(rgba(0, 0, 0, 0)), None, None, Some(rgba(3, 6, 9, 12)), None];
    let r = interpolate_gradient(&s);
    assert_eq!(
        r,
        vec![rgba(0, 0, 0, 0), rgba(0, 0, 0, 0), rgba(1, 2, 3, 4), rgba(2, 4, 6, 8), rgba(3, 6, 9, 12), rgba(3, 6, 9, 12)]
    );
}

#[test]
fn keep_repeats_previous_frame() {
    let plans = vec![
        FramePlan { start: 0, fade: 0, parts: vec![Instruction::Show(vec![rgba(10, 20, 30, 255)])] },
        FramePlan { start: 5, fade: 1, parts: vec![Instruction::Keep] },
    ];
    let f = resolve_frames(&plans, 1).unwrap();
    assert_eq!(f.len(), 2);
    assert_eq!(f[1].parts[0], vec![Color { r: 10, g: 20, b: 30 }]);
    assert_eq!(f[1].parts, f[0].parts);
    assert_eq!(f[1].fade, 1);
    assert_eq!(f[1].checksum, 0);
}

#[test]
fn keep_in_first_frame_fails() {
    let plans = vec![FramePlan { start: 0, fade: 0, parts: vec![Instruction::Keep] }];
    assert_eq!(resolve_frames(&plans, 1).err(), Some(CompileError::FirstFrameNoEffect));
}

#[test]
fn control_dat_for_mask_led() {
    let t = ChannelTable::init();
    let q = query(&[], &[("mask_LED", 40, 28)], &[]);
    let starts = vec![1000u32, 0, 1000, 500];
    let b = control_dat(&t, &q, &starts).unwrap();
    assert_eq!(b, vec![0, 0, 0, 1, 28, 3, 0, 0, 0, 0, 0, 0, 0, 244, 1, 0, 0, 232, 3, 0, 0]);
}

#[test]
fn sorted_starts_dedups() {
    assert_eq!(sorted_starts(&vec![7, 3, 7, 1, 3]), vec![1, 3, 7]);
    assert_eq!(sorted_starts(&vec![]), Vec::<u32>::new());
}

#[test]
fn control_dat_count_out_of_range() {
    let lens: Vec<i32> = vec![1; 256];
    assert_eq!(encode_control_dat(0, &lens, &vec![]), Err(CompileError::RangeViolation));
    assert_eq!(encode_control_dat(256, &vec![], &vec![]), Err(CompileError::RangeViolation));
    assert_eq!(encode_control_dat(0, &vec![300], &vec![]), Err(CompileError::RangeViolation));
}

#[test]
fn fiber_without_row_is_black() {
    let t = ChannelTable::init();
    let q = query(&[("cloak_out", 1)], &[], &[]);
    let recs = ShowRecords {
        colors: palette(),
        effect_states: vec![],
        bulbs: vec![],
        controls: vec![control(1, 100, "cross", ControlKind::Color, Some(1), Some(255), None)],
    };
    let b = frame_dat(&t, &q, &recs).unwrap();
    assert_eq!(b, vec![0, 0, 100, 0, 0, 0, 0, 0, 0, 0, 0, 0, 0, 0]);
}

#[test]
fn fiber_colors_in_channel_order_grb() {
    let t = ChannelTable::init();
    let q = query(&[("cross", 2), ("cloak_out", 1)], &[], &[]);
    let recs = ShowRecords {
        colors: palette(),
        effect_states: vec![],
        bulbs: vec![],
        controls: vec![
            control(1, 0, "cross", ControlKind::Color, Some(1), Some(255), None),
            control(2, 0, "cloak_out", ControlKind::Color, Some(3), Some(255), None),
            control(3, 10, "cross", ControlKind::NoEffect, None, None, None),
            control(4, 10, "cloak_out", ControlKind::Color, None, Some(255), None),
        ],
    };
    let b = frame_dat(&t, &q, &recs).unwrap();
    assert_eq!(
        b,
        vec![
            0, 0, //
            0, 0, 0, 0, 0, 20, 10, 30, 0, 255, 0, 0, 0, 0, 0, //
            10, 0, 0, 0, 0, 0, 0, 0, 0, 255, 0, 0, 0, 0, 0,
        ]
    );
}

#[test]
fn led_bulbs_take_precedence_over_effect() {
    let t = ChannelTable::init();
    let q = query(&[], &[("mask_LED", 40, 3)], &[]);
    let recs = ShowRecords {
        colors: palette(),
        effect_states: vec![StopRecord { owner: 9, position: 0, color_id: Some(2), alpha: 255 }],
        bulbs: vec![
            StopRecord { owner: 1, position: 0, color_id: Some(1), alpha: 255 },
            StopRecord { owner: 1, position: 2, color_id: Some(2), alpha: 255 },
        ],
        controls: vec![control(1, 0, "mask_LED", ControlKind::Effect, None, None, Some(9))],
    };
    let b = frame_dat(&t, &q, &recs).unwrap();
    assert_eq!(b, vec![0, 0, 0, 0, 0, 0, 0, 0, 255, 0, 0, 127, 127, 0, 0, 255, 0, 0, 0, 0]);
}

#[test]
fn led_effect_and_missing_effect() {
    let t = ChannelTable::init();
    let q = query(&[], &[("mask_LED", 40, 2)], &[]);
    let mut recs = ShowRecords {
        colors: palette(),
        effect_states: vec![
            StopRecord { owner: 9, position: 1, color_id: Some(2), alpha: 255 },
            StopRecord { owner: 9, position: 0, color_id: Some(1), alpha: 0 },
        ],
        bulbs: vec![],
        controls: vec![control(1, 0, "mask_LED", ControlKind::Effect, None, None, Some(9))],
    };
    let b = frame_dat(&t, &q, &recs).unwrap();
    assert_eq!(b, vec![0, 0, 0, 0, 0, 0, 0, 0, 0, 0, 0, 0, 255, 0, 0, 0, 0]);
    recs.controls[0].effect_id = Some(8);
    assert_eq!(frame_dat(&t, &q, &recs), Err(CompileError::EffectNotFound));
}

#[test]
fn led_first_frame_no_effect_fails() {
    let t = ChannelTable::init();
    let q = query(&[], &[("mask_LED", 40, 2)], &[]);
    let recs = ShowRecords {
        colors: palette(),
        effect_states: vec![],
        bulbs: vec![],
        controls: vec![control(1, 0, "mask_LED", ControlKind::NoEffect, None, None, None)],
    };
    assert_eq!(frame_dat(&t, &q, &recs), Err(CompileError::FirstFrameNoEffect));
}

#[test]
fn negative_strip_length_fails() {
    let t = ChannelTable::init();
    let q = query(&[], &[("mask_LED", 40, -1)], &[]);
    let recs = ShowRecords { colors: palette(), effect_states: vec![], bulbs: vec![], controls: vec![] };
    assert_eq!(frame_dat(&t, &q, &recs), Err(CompileError::RangeViolation));
}

#[test]
fn merged_strip_is_one_output() {
    let t = ChannelTable::init();
    let q = query(&[], &[("hat_main_LED", 45, 4)], &[("hat_main_LED", &["hat_left", "hat_right"])]);
    let parts = output_parts(&t, &q).unwrap();
    assert_eq!(parts.len(), 1);
    assert_eq!(parts[0].names, vec!["hat_left".to_string(), "hat_right".to_string()]);
    let recs = ShowRecords {
        colors: palette(),
        effect_states: vec![],
        bulbs: vec![StopRecord { owner: 7, position: 3, color_id: Some(3), alpha: 255 }],
        controls: vec![
            control(6, 0, "hat_left", ControlKind::Color, None, None, None),
            control(7, 0, "hat_right", ControlKind::Color, None, None, None),
        ],
    };
    let b = frame_dat(&t, &q, &recs).unwrap();
    assert_eq!(b.len(), 2 + 4 + 1 + 4 * 3 + 4);
    assert_eq!(&b[7..19], &[20, 10, 30, 20, 10, 30, 20, 10, 30, 20, 10, 30]);
}

#[test]
fn frame_dat_round_trip() {
    let plans = vec![
        FramePlan { start: 0, fade: 1, parts: vec![Instruction::Show(vec![rgba(1, 2, 3, 255), rgba(4, 5, 6, 255)])] },
        FramePlan { start: 70000, fade: 0, parts: vec![Instruction::Show(vec![rgba(7, 8, 9, 255), rgba(0, 0, 0, 0)])] },
    ];
    let frames = resolve_frames(&plans, 1).unwrap();
    let b = encode_frame_dat(&frames);
    let back = parse_frame_dat(&b, 6).unwrap();
    assert_eq!(back.len(), 2);
    assert_eq!((back[0].start, back[0].fade, back[0].payload.clone(), back[0].checksum), (0, 1, vec![2, 1, 3, 5, 4, 6], 0));
    assert_eq!((back[1].start, back[1].fade, back[1].payload.clone(), back[1].checksum), (70000, 0, vec![8, 7, 9, 0, 0, 0], 0));
    assert!(parse_frame_dat(&b, 5).is_none());
    assert!(parse_frame_dat(&vec![1, 0], 5).is_none());
}
