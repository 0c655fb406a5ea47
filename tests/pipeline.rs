use smasher::analyzer::{analyze, count_actions_by_id};
use smasher::error::SmasherError;
use smasher::model::{Action, ActionCounts, ActionType, BattleLog, PlayerInfo, Timestamp};
use smasher::parser::{parse_action_line, parse_actions, parse_battle_log, parse_player_info};

fn lines(text: &[&str]) -> Vec<String> {
    text.iter().map(|s| s.to_string()).collect()
}

#[test]
fn end_to_end_example() {
    let input = lines(&["b1022024,1", "1.04,us", "1.64,ss", "2.41,ds", "1.64,ss"]);
    let log = parse_battle_log(&input).unwrap();
    assert_eq!(log.player_info.student_id, "b1022024");
    assert_eq!(log.player_info.match_number, 1);
    assert_eq!(log.actions.len(), 4);
    let result = analyze(&log);
    assert_eq!(result.counts.attack_count, 4);
    assert_eq!(result.counts.shield_count, 0);
    assert_eq!(result.counts.dodge_count, 0);
    assert_eq!(result.counts.total(), 4);
    assert_eq!(result.counts.most_frequent_action(), ActionType::Attack);
    assert_eq!(
        result.action_id_counts,
        vec![("ss".to_string(), 2), ("ds".to_string(), 1), ("us".to_string(), 1)]
    );
    let (top, n) = &result.action_id_counts[0];
    assert_eq!(top, "ss");
    assert_eq!(*n, 2);
    assert_eq!(ActionType::get_action_name(top), "横スマ");
}

#[test]
fn frequency_order_count_then_code() {
    let mut input = vec!["p,2".to_string()];
    for _ in 0..3 {
        input.push("0.5,ss".to_string());
        input.push("0.5,ds".to_string());
    }
    for _ in 0..5 {
        input.push("1,us".to_string());
    }
    let log = parse_battle_log(&input).unwrap();
    let result = analyze(&log);
    assert_eq!(
        result.action_id_counts,
        vec![("us".to_string(), 5), ("ds".to_string(), 3), ("ss".to_string(), 3)]
    );
    let sum: u32 = result.action_id_counts.iter().map(|e| e.1).sum();
    assert_eq!(sum as usize, log.actions.len());
}

#[test]
fn frequency_order_by_code_points() {
    let input = lines(&["p,2", "1,b", "2,B", "3,ab", "4,a"]);
    let result = analyze(&parse_battle_log(&input).unwrap());
    let codes: Vec<&str> = result.action_id_counts.iter().map(|e| e.0.as_str()).collect();
    assert_eq!(codes, vec!["B", "a", "ab", "b"]);
}

#[test]
fn categories_are_counted() {
    let input = lines(&["x,3", "1,s", "2,nd", "3,sd", "4,ad", "5,s", "6,zz"]);
    let result = analyze(&parse_battle_log(&input).unwrap());
    assert_eq!(result.counts.attack_count, 1);
    assert_eq!(result.counts.shield_count, 2);
    assert_eq!(result.counts.dodge_count, 3);
    assert_eq!(result.counts.total(), 6);
    assert_eq!(result.counts.most_frequent_action(), ActionType::Dodge);
}

#[test]
fn empty_file_is_empty_data() {
    let r = parse_battle_log(&Vec::new());
    assert_eq!(r.unwrap_err(), SmasherError::EmptyData("file is empty".to_string()));
}

#[test]
fn header_only_is_empty_data() {
    let r = parse_battle_log(&lines(&["abc,1", "", "   "]));
    assert_eq!(r.unwrap_err(), SmasherError::EmptyData("no action records found".to_string()));
}

#[test]
fn header_with_one_field_is_invalid_format() {
    let r = parse_battle_log(&lines(&["abc", "1.0,us"]));
    assert_eq!(r.unwrap_err(), SmasherError::InvalidFormat(1, "abc".to_string()));
}

#[test]
fn header_with_three_fields_is_invalid_format() {
    let r = parse_battle_log(&lines(&["a,1,2", "1.0,us"]));
    assert_eq!(r.unwrap_err(), SmasherError::InvalidFormat(1, "a,1,2".to_string()));
}

#[test]
fn header_with_text_number_is_parse_error() {
    let r = parse_battle_log(&lines(&["abc,xyz", "1.0,us"]));
    assert_eq!(r.unwrap_err(), SmasherError::ParseError(1, "xyz".to_string()));
}

#[test]
fn header_number_out_of_range_is_parse_error() {
    let r = parse_battle_log(&lines(&["abc,4294967296", "1.0,us"]));
    assert_eq!(r.unwrap_err(), SmasherError::ParseError(1, "4294967296".to_string()));
    let ok = parse_battle_log(&lines(&["abc,4294967295", "1.0,us"])).unwrap();
    assert_eq!(ok.player_info.match_number, 4294967295);
}

#[test]
fn header_fields_are_trimmed() {
    let input = lines(&["  b1022024 ,\t+7 ", "1,us"]);
    let info = parse_player_info(&input).unwrap();
    assert_eq!(info.student_id, "b1022024");
    assert_eq!(info.match_number, 7);
}

#[test]
fn action_line_with_one_field_is_invalid_format() {
    let r = parse_battle_log(&lines(&["abc,1", "bad"]));
    assert_eq!(r.unwrap_err(), SmasherError::InvalidFormat(2, "bad".to_string()));
}

#[test]
fn action_line_with_text_timestamp_is_parse_error() {
    let r = parse_battle_log(&lines(&["abc,1", "abc,us"]));
    assert_eq!(r.unwrap_err(), SmasherError::ParseError(2, "abc".to_string()));
}

#[test]
fn line_numbers_count_blank_lines() {
    let r = parse_battle_log(&lines(&["abc,1", "1,us", "", "x,us"]));
    assert_eq!(r.unwrap_err(), SmasherError::ParseError(4, "x".to_string()));
}

#[test]
fn first_error_wins() {
    let r = parse_battle_log(&lines(&["abc,1", "1,us", "bad", "x,us"]));
    assert_eq!(r.unwrap_err(), SmasherError::InvalidFormat(3, "bad".to_string()));
}

#[test]
fn action_line_fields() {
    let a = parse_action_line("12.050, us", 2).unwrap();
    assert_eq!(a.timestamp, Timestamp { text: "12.050".to_string() });
    assert_eq!(a.original_id, "us");
    assert_eq!(a.action_type, ActionType::Attack);
    let b = parse_action_line("-.5,s", 9).unwrap();
    assert_eq!(b.timestamp.text, "-.5");
    assert_eq!(b.action_type, ActionType::Shield);
    let c = parse_action_line(" +3. ,nd", 9).unwrap();
    assert_eq!(c.timestamp.text, "+3.");
    assert_eq!(c.action_type, ActionType::Dodge);
}

#[test]
fn timestamp_is_the_value_of_the_field() {
    for ts in ["1.04", "0", "-0", "2.41", "1e3", "1.5E-2", "+7e+1", "3.e2", ".5e1"] {
        let line = format!(" {} ,ss", ts);
        let a = parse_action_line(line.trim(), 2).unwrap();
        assert_eq!(a.timestamp.text, ts);
        let v: f64 = a.timestamp.text.parse().unwrap();
        assert_eq!(v.to_bits(), ts.parse::<f64>().unwrap().to_bits());
    }
}

#[test]
fn float_texts_accepted_as_std_does() {
    for ts in [
        "inf", "-inf", "+Infinity", "INF", "NaN", "nan", "-nAn", "99999999999999999999",
        "1e3", "1.5E-2", "0.000000000000000000000001",
    ] {
        let line = format!("{},us", ts);
        assert!(ts.parse::<f64>().is_ok());
        let a = parse_action_line(&line, 5).unwrap();
        assert_eq!(a.timestamp.text, ts);
        assert_eq!(a.original_id, "us");
    }
}

#[test]
fn malformed_timestamps_are_rejected() {
    for ts in [".", "", "1.2.3", "1a", "--1", "1e", "e5", "1e+", "1e5e3", "infin", "na", "+", "1 2"] {
        let line = format!("{},us", ts);
        assert!(ts.parse::<f64>().is_err());
        assert_eq!(
            parse_action_line(&line, 5).unwrap_err(),
            SmasherError::ParseError(5, ts.to_string())
        );
    }
}

#[test]
fn parse_actions_skips_header_and_blanks() {
    let acts = parse_actions(&lines(&["h,1", "  ", "1,g", "\t", "2,fth"])).unwrap();
    let codes: Vec<&str> = acts.iter().map(|a| a.original_id.as_str()).collect();
    assert_eq!(codes, vec!["g", "fth"]);
}

#[test]
fn classification_tables() {
    assert_eq!(ActionType::from_action_id("s"), ActionType::Shield);
    for code in ["nd", "sd", "ad"] {
        assert_eq!(ActionType::from_action_id(code), ActionType::Dodge);
    }
    for code in ["j1", "DA", "ub_a", "dc", "unknown", "", "S", "nd "] {
        assert_eq!(ActionType::from_action_id(code), ActionType::Attack);
    }
}

#[test]
fn display_names() {
    assert_eq!(ActionType::get_action_name("j1"), "弱1段");
    assert_eq!(ActionType::get_action_name("dc"), "前投げ（下派生）");
    assert_eq!(ActionType::get_action_name("s"), "シールド");
    assert_eq!(ActionType::get_action_name("ad"), "空中回避");
    assert_eq!(ActionType::get_action_name("zz"), "zz");
}

#[test]
fn counts_new_increment_and_leader() {
    let mut c = ActionCounts::new();
    assert_eq!(c.total(), 0);
    assert_eq!(c.most_frequent_action(), ActionType::Attack);
    c.increment(&ActionType::Shield);
    c.increment(&ActionType::Dodge);
    assert_eq!(c.most_frequent_action(), ActionType::Shield);
    c.increment(&ActionType::Dodge);
    assert_eq!(c.most_frequent_action(), ActionType::Dodge);
    c.increment(&ActionType::Attack);
    c.increment(&ActionType::Attack);
    assert_eq!(c.most_frequent_action(), ActionType::Attack);
    assert_eq!((c.attack_count, c.shield_count, c.dodge_count), (2, 1, 2));
    assert_eq!(c.total(), 5);
}

#[test]
fn constructors_keep_their_fields() {
    let a = Action::new(Timestamp { text: "1".to_string() }, "sd".to_string());
    assert_eq!(a.action_type, ActionType::Dodge);
    let p = PlayerInfo::new("id".to_string(), 4);
    let log = BattleLog::new(p, vec![a]);
    let r = analyze(&log);
    assert_eq!(r.player_info.student_id, "id");
    assert_eq!(r.player_info.match_number, 4);
    assert_eq!(r.counts.dodge_count, 1);
}

#[test]
fn frequency_table_of_a_log() {
    let input = lines(&["p,1", "1,us", "2,s", "3,us", "4,nd", "5,s", "6,us"]);
    let log = parse_battle_log(&input).unwrap();
    assert_eq!(
        count_actions_by_id(&log),
        vec![("us".to_string(), 3), ("s".to_string(), 2), ("nd".to_string(), 1)]
    );
}
