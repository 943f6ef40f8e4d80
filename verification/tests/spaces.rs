use yabai_cycle_spaces::decode::decode_spaces;
use yabai_cycle_spaces::plan;
use yabai_cycle_spaces::records::{SpaceError, SpaceMove, SpaceRecord};
use yabai_cycle_spaces::resolve::{config_wf, resolve_targets, select_move, FocusCommand};
use yabai_cycle_spaces::snapshot::{build_snapshot, DisplaySpaces, SpaceConfig};

fn record(id: u32, display: u32, has_focus: bool, is_visible: bool) -> SpaceRecord {
    SpaceRecord { id, display, has_focus, is_visible }
}

fn one_display_snapshot(visible: u32) -> SpaceConfig {
    SpaceConfig {
        displays: vec![DisplaySpaces { display: 7, spaces: vec![10, 20, 30], visible }],
        focused_display: 7,
    }
}

#[test]
fn snapshot_of_two_displays() {
    let records = vec![
        record(1, 1, true, true),
        record(2, 1, false, false),
        record(3, 2, false, false),
        record(4, 2, false, true),
        record(5, 2, false, false),
    ];
    let config = build_snapshot(&records).unwrap();
    assert_eq!(config.focused_display, 1);
    assert_eq!(config.displays.len(), 2);
    assert_eq!(config.displays[0].display, 1);
    assert_eq!(config.displays[0].spaces, vec![1, 2]);
    assert_eq!(config.displays[0].visible, 1);
    assert_eq!(config.displays[1].display, 2);
    assert_eq!(config.displays[1].spaces, vec![3, 4, 5]);
    assert_eq!(config.displays[1].visible, 4);
    assert!(config_wf(&config));
}

#[test]
fn snapshot_keeps_source_order_of_spaces() {
    let records = vec![
        record(42, 3, false, true),
        record(7, 3, true, false),
        record(19, 3, false, false),
    ];
    let config = build_snapshot(&records).unwrap();
    assert_eq!(config.displays.len(), 1);
    assert_eq!(config.displays[0].spaces, vec![42, 7, 19]);
}

#[test]
fn snapshot_without_focused_record_is_refused() {
    let records = vec![record(1, 1, false, true), record(2, 1, false, false)];
    assert_eq!(build_snapshot(&records), Err(SpaceError::Inconsistent));
}

#[test]
fn snapshot_with_two_focused_records_is_refused() {
    let records = vec![record(1, 1, true, true), record(2, 1, true, false)];
    assert_eq!(build_snapshot(&records), Err(SpaceError::Inconsistent));
}

#[test]
fn snapshot_without_visible_space_is_refused() {
    let records = vec![record(1, 1, true, true), record(2, 2, false, false)];
    assert_eq!(build_snapshot(&records), Err(SpaceError::Inconsistent));
}

#[test]
fn snapshot_with_two_visible_spaces_is_refused() {
    let records = vec![record(1, 1, true, true), record(2, 1, false, true)];
    assert_eq!(build_snapshot(&records), Err(SpaceError::Inconsistent));
}

#[test]
fn snapshot_with_split_display_run_is_refused() {
    let records = vec![
        record(1, 1, true, true),
        record(2, 2, false, true),
        record(3, 1, false, false),
    ];
    assert_eq!(build_snapshot(&records), Err(SpaceError::Inconsistent));
}

#[test]
fn empty_record_set_is_refused() {
    let records: Vec<SpaceRecord> = Vec::new();
    assert_eq!(build_snapshot(&records), Err(SpaceError::Inconsistent));
}

#[test]
fn next_moves_one_space_forward() {
    let config = one_display_snapshot(20);
    let cmds = resolve_targets(&config, SpaceMove::Next).unwrap();
    assert_eq!(cmds, vec![FocusCommand { display: 7, target: 2 }]);
}

#[test]
fn previous_moves_one_space_back() {
    let config = one_display_snapshot(20);
    let cmds = resolve_targets(&config, SpaceMove::Previous).unwrap();
    assert_eq!(cmds, vec![FocusCommand { display: 7, target: 0 }]);
}

#[test]
fn previous_at_first_position_wraps_to_last() {
    let config = one_display_snapshot(10);
    let cmds = resolve_targets(&config, SpaceMove::Previous).unwrap();
    assert_eq!(cmds, vec![FocusCommand { display: 7, target: 2 }]);
}

#[test]
fn next_at_last_position_wraps_to_first() {
    let config = one_display_snapshot(30);
    let cmds = resolve_targets(&config, SpaceMove::Next).unwrap();
    assert_eq!(cmds, vec![FocusCommand { display: 7, target: 0 }]);
}

#[test]
fn explicit_index_ignores_the_visible_space() {
    for visible in [10, 30] {
        let config = one_display_snapshot(visible);
        let cmds = resolve_targets(&config, SpaceMove::Space(2)).unwrap();
        assert_eq!(cmds, vec![FocusCommand { display: 7, target: 2 }]);
    }
}

#[test]
fn next_targets_every_display_with_its_offset() {
    let records = vec![
        record(1, 1, true, true),
        record(2, 1, false, false),
        record(3, 2, false, false),
        record(4, 2, false, true),
        record(5, 2, false, false),
    ];
    let config = build_snapshot(&records).unwrap();
    let cmds = resolve_targets(&config, SpaceMove::Next).unwrap();
    assert_eq!(
        cmds,
        vec![
            FocusCommand { display: 1, target: 1 },
            FocusCommand { display: 2, target: 3 },
        ]
    );
}

#[test]
fn missing_focused_display_is_refused() {
    let config = SpaceConfig {
        displays: vec![DisplaySpaces { display: 1, spaces: vec![10], visible: 10 }],
        focused_display: 2,
    };
    assert_eq!(resolve_targets(&config, SpaceMove::Next), Err(SpaceError::Inconsistent));
}

#[test]
fn ambiguous_visible_space_is_refused() {
    let config = SpaceConfig {
        displays: vec![DisplaySpaces { display: 1, spaces: vec![10, 20, 10], visible: 10 }],
        focused_display: 1,
    };
    assert_eq!(resolve_targets(&config, SpaceMove::Next), Err(SpaceError::Inconsistent));
}

#[test]
fn absent_visible_space_is_refused() {
    let config = SpaceConfig {
        displays: vec![DisplaySpaces { display: 1, spaces: vec![10, 20], visible: 30 }],
        focused_display: 1,
    };
    assert_eq!(resolve_targets(&config, SpaceMove::Next), Err(SpaceError::Inconsistent));
}

#[test]
fn ill_formed_snapshot_is_refused() {
    let config = SpaceConfig {
        displays: vec![
            DisplaySpaces { display: 1, spaces: vec![10], visible: 10 },
            DisplaySpaces { display: 1, spaces: vec![20], visible: 20 },
        ],
        focused_display: 1,
    };
    assert!(!config_wf(&config));
    assert_eq!(resolve_targets(&config, SpaceMove::Next), Err(SpaceError::Inconsistent));
}

#[test]
fn display_without_spaces_is_refused() {
    let config = SpaceConfig {
        displays: vec![DisplaySpaces { display: 1, spaces: Vec::new(), visible: 10 }],
        focused_display: 1,
    };
    assert!(!config_wf(&config));
    assert_eq!(resolve_targets(&config, SpaceMove::Next), Err(SpaceError::Inconsistent));
}

#[test]
fn select_move_follows_the_flags() {
    assert_eq!(select_move(true, false, None), Some(SpaceMove::Next));
    assert_eq!(select_move(false, true, None), Some(SpaceMove::Previous));
    assert_eq!(select_move(false, false, Some(4)), Some(SpaceMove::Space(4)));
    assert_eq!(select_move(false, false, None), None);
}

#[test]
fn decode_reads_the_documented_fields_and_ignores_the_rest() {
    let text = r#"[
        {"id":1,"uuid":"","index":1,"label":"","type":"bsp","display":1,
         "windows":[259,93],"has-focus":true,"is-visible":true,
         "is-native-fullscreen":false},
        {"id":2,"display":1,"has-focus":false,"is-visible":false}
    ]"#;
    let records = decode_spaces(text).unwrap();
    assert_eq!(
        records,
        vec![record(1, 1, true, true), record(2, 1, false, false)]
    );
}

#[test]
fn decode_of_malformed_text_reports_syntax() {
    assert_eq!(decode_spaces("not json"), Err(SpaceError::ParseSyntax));
    assert_eq!(decode_spaces("[{"), Err(SpaceError::ParseSyntax));
}

#[test]
fn decode_of_a_non_array_reports_structure() {
    assert_eq!(decode_spaces(r#"{"id":1}"#), Err(SpaceError::ParseStructure));
    assert_eq!(decode_spaces("3"), Err(SpaceError::ParseStructure));
}

#[test]
fn decode_of_a_record_with_a_missing_field_reports_structure() {
    let text = r#"[{"id":1,"display":1,"has-focus":true}]"#;
    assert_eq!(decode_spaces(text), Err(SpaceError::ParseStructure));
}

#[test]
fn decode_of_a_record_with_a_wrongly_typed_field_reports_structure() {
    let text = r#"[{"id":1,"display":1,"has-focus":1,"is-visible":true}]"#;
    assert_eq!(decode_spaces(text), Err(SpaceError::ParseStructure));
    let text = r#"[{"id":-1,"display":1,"has-focus":true,"is-visible":true}]"#;
    assert_eq!(decode_spaces(text), Err(SpaceError::ParseStructure));
}

#[test]
fn decode_accepts_the_largest_identifier() {
    let text = r#"[{"id":4294967295,"display":1,"has-focus":true,"is-visible":true}]"#;
    let records = decode_spaces(text).unwrap();
    assert_eq!(records, vec![record(u32::MAX, 1, true, true)]);
}

#[test]
fn decode_of_an_oversized_identifier_reports_structure() {
    let text = r#"[{"id":4294967296,"display":1,"has-focus":true,"is-visible":true}]"#;
    assert_eq!(decode_spaces(text), Err(SpaceError::ParseStructure));
}

#[test]
fn plan_with_no_selection_issues_no_command() {
    let text = r#"[{"id":1,"display":1,"has-focus":true,"is-visible":true}]"#;
    assert_eq!(plan(text, false, false, None), Ok(Vec::new()));
}

#[test]
fn plan_still_reports_bad_state_with_no_selection() {
    assert_eq!(plan("[]", false, false, None), Err(SpaceError::Inconsistent));
    assert_eq!(plan("nope", false, false, None), Err(SpaceError::ParseSyntax));
}

#[test]
fn plan_cycle_to_issues_focus_commands() {
    let text = r#"[
        {"id":10,"display":1,"has-focus":true,"is-visible":true},
        {"id":20,"display":1,"has-focus":false,"is-visible":false},
        {"id":30,"display":1,"has-focus":false,"is-visible":false}
    ]"#;
    let cmds = plan(text, false, false, Some(2)).unwrap();
    assert_eq!(cmds, vec![FocusCommand { display: 1, target: 2 }]);
}

#[test]
fn plan_runs_the_whole_pipeline() {
    let text = r#"[
        {"id":1,"display":1,"has-focus":true,"is-visible":true},
        {"id":2,"display":1,"has-focus":false,"is-visible":false},
        {"id":3,"display":2,"has-focus":false,"is-visible":false},
        {"id":4,"display":2,"has-focus":false,"is-visible":true},
        {"id":5,"display":2,"has-focus":false,"is-visible":false}
    ]"#;
    let cmds = plan(text, true, false, None).unwrap();
    assert_eq!(
        cmds,
        vec![
            FocusCommand { display: 1, target: 1 },
            FocusCommand { display: 2, target: 3 },
        ]
    );
}
