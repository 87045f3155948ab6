use staticauth::config::encode_hex;
use staticauth::config::check_key;
use staticauth::config::parse_key_text;
use staticauth::config::serve_plan;
use staticauth::config::KeySource;
use staticauth::config::ServeArgs;
use staticauth::config::Setting;
use staticauth::config::User;
use staticauth::config::hours_to_secs;

fn no_args() -> ServeArgs {
    ServeArgs { session_absolute_timeout_hours: None, session_secret_key_file: None, address: None }
}

fn no_setting() -> Setting {
    Setting {
        session_absolute_timeout_hours: None,
        session_secret_key_file: None,
        session_secret_key: None,
        address: None,
        users: vec![],
    }
}

#[test]
fn serve_plan_defaults() {
    let plan = serve_plan(no_args(), no_setting());
    assert_eq!(720, plan.session_absolute_timeout_hours);
    assert_eq!("127.0.0.1:8080", plan.address);
    assert!(matches!(plan.key_source, KeySource::Missing));
    assert!(plan.users.entries.is_empty());
}

#[test]
fn serve_plan_arguments_win_over_setting() {
    let args = ServeArgs {
        session_absolute_timeout_hours: Some(1),
        session_secret_key_file: Some("from-args".into()),
        address: Some("0.0.0.0:9999".into()),
    };
    let setting = Setting {
        session_absolute_timeout_hours: Some(2),
        session_secret_key_file: Some("from-setting".into()),
        session_secret_key: Some("aabb".into()),
        address: Some("1.2.3.4:1".into()),
        users: vec![User { username: "u".into(), password: "h".into() }],
    };
    let plan = serve_plan(args, setting);
    assert_eq!(1, plan.session_absolute_timeout_hours);
    assert_eq!("0.0.0.0:9999", plan.address);
    assert!(matches!(plan.key_source, KeySource::FromFile(ref p) if p == "from-args"));
    assert_eq!(vec![("u".to_string(), "h".to_string())], plan.users.entries);
}

#[test]
fn serve_plan_key_file_wins_over_inline_key() {
    let mut setting = no_setting();
    setting.session_secret_key_file = Some("keyfile".into());
    setting.session_secret_key = Some("aabb".into());
    let plan = serve_plan(no_args(), setting);
    assert!(matches!(plan.key_source, KeySource::FromFile(ref p) if p == "keyfile"));

    let mut setting2 = no_setting();
    setting2.session_secret_key = Some("aabb".into());
    let plan2 = serve_plan(no_args(), setting2);
    assert!(matches!(plan2.key_source, KeySource::Inline(ref k) if k == "aabb"));
}

#[test]
fn parse_key_text_reads_hex_and_trims() {
    assert_eq!(Some(vec![0x00, 0xff]), parse_key_text("00ff\n"));
    assert_eq!(Some(vec![0xab, 0xcd]), parse_key_text("ABcd \t\r\n"));
    assert_eq!(Some(vec![]), parse_key_text(""));
    assert_eq!(None, parse_key_text("abc"));
    assert_eq!(None, parse_key_text("zz"));
    assert_eq!(None, parse_key_text("aa bb"));
}

#[test]
fn encode_hex_round_trips_through_parse() {
    let key: Vec<u8> = (0u8..64).collect();
    let text = encode_hex(&key).unwrap();
    assert_eq!(128, text.len());
    assert_eq!(Some(key), parse_key_text(&text));
    assert_eq!(Some("00ff10".to_string()), encode_hex(&[0x00, 0xff, 0x10]));
}

#[test]
fn check_key_requires_sixty_four_bytes() {
    assert!(check_key(&(0u8..64).collect()));
    assert!(check_key(&(0u8..80).collect()));
    assert!(!check_key(&(0u8..63).collect()));
    assert!(!check_key(&vec![]));
}

#[test]
fn hours_to_secs_converts_and_saturates() {
    assert_eq!(720 * 3600, hours_to_secs(720));
    assert_eq!(0, hours_to_secs(0));
    assert_eq!(u64::MAX, hours_to_secs(u64::MAX));
}
