use omega_drive::bot_env::{apply_env_updates, render_env, split_lines};

fn s(v: &[&str]) -> Vec<String> {
    v.iter().map(|x| x.to_string()).collect()
}

#[test]
fn lines_split_like_str_lines() {
    assert_eq!(split_lines("a\r\nb\n\nc"), s(&["a", "b", "", "c"]));
    assert_eq!(split_lines("a\n"), s(&["a"]));
    assert_eq!(split_lines(""), Vec::<String>::new());
    assert_eq!(split_lines("x\r"), s(&["x\r"]));
    assert_eq!(split_lines("\n"), s(&[""]));
}

#[test]
fn updates_rewrite_and_append() {
    let lines = s(&["# comment", "  DISCORD_TOKEN=old", "OTHER=1"]);
    let ups = vec![
        ("DISCORD_TOKEN".to_string(), "new".to_string()),
        ("TELEGRAM_PHONE".to_string(), "+1".to_string()),
    ];
    let out = apply_env_updates(&lines, &ups);
    assert_eq!(out, s(&["# comment", "DISCORD_TOKEN=new", "OTHER=1", "TELEGRAM_PHONE=+1"]));
}

#[test]
fn key_prefix_needs_equals_sign() {
    let lines = s(&["DISCORD_TOKEN_X=1"]);
    let ups = vec![("DISCORD_TOKEN".to_string(), "v".to_string())];
    let out = apply_env_updates(&lines, &ups);
    assert_eq!(out, s(&["DISCORD_TOKEN_X=1", "DISCORD_TOKEN=v"]));
}

#[test]
fn rendering_ends_with_newline() {
    assert_eq!(render_env(&s(&["A=1", "B=2"])), "A=1\nB=2\n");
    assert_eq!(render_env(&Vec::new()), "\n");
    assert_eq!(render_env(&s(&["A=1", ""])), "A=1\n");
}

#[test]
fn repeated_keys_take_their_last_value() {
    let lines = s(&["A=0", "B=0"]);
    let ups = vec![
        ("A".to_string(), "1".to_string()),
        ("C".to_string(), "x".to_string()),
        ("A".to_string(), "2".to_string()),
        ("C".to_string(), "y".to_string()),
    ];
    let out = apply_env_updates(&lines, &ups);
    assert_eq!(out, s(&["A=2", "B=0", "C=y"]));
}

#[test]
fn every_line_setting_a_key_is_rewritten() {
    let lines = s(&["A=0", "# x", " A=old"]);
    let ups = vec![("A".to_string(), "1".to_string())];
    let out = apply_env_updates(&lines, &ups);
    assert_eq!(out, s(&["A=1", "# x", "A=1"]));
}
