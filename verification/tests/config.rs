use pishock_bridge::json::{Json, Member};
use pishock_bridge::pishock::{credentials, load_config, ConfigError, Env, LoadError, PiShock, RequestError};

fn text(s: &str) -> Json {
    Json::Str(s.to_string())
}

fn object(members: Vec<(&str, Json)>) -> Json {
    Json::Object(
        members
            .into_iter()
            .map(|(k, v)| Member { key: k.to_string(), value: v })
            .collect(),
    )
}

fn no_env() -> Env {
    Env { username: None, api_key: None, name: None, share_code: None }
}

fn readme_config() -> Json {
    object(vec![(
        "pishock",
        object(vec![
            ("username", text("alice")),
            ("api_key", text("key-123")),
            ("name", text("Pishock_bridge")),
            (
                "devices",
                Json::Array(vec![
                    object(vec![("name", text("Left")), ("share_code", text("1A2B3C4D5E6"))]),
                    object(vec![
                        ("name", text("Right")),
                        ("share_code", text("https://pishock.com/#/Control?sharecode=1A2B3C4D5E6")),
                    ]),
                    object(vec![
                        ("name", text("Both")),
                        (
                            "share_code",
                            text("https://pishock.com/#/Control?sharecode=1A2B3C4D5E6,1A2B3C4D5E6"),
                        ),
                    ]),
                ]),
            ),
        ]),
    )])
}

fn names(p: &PiShock) -> Vec<String> {
    p.device_names()
}

fn message(r: Result<Option<PiShock>, ConfigError>) -> String {
    match r {
        Err(e) => e.message(),
        Ok(_) => panic!("expected an error"),
    }
}

#[test]
fn readme_example_devices() {
    let p = credentials(&readme_config(), &no_env()).ok().unwrap().unwrap();
    assert_eq!(names(&p), vec!["Left", "Right", "Both 1", "Both 2"]);
    assert_eq!(p.auth.username, "alice");
    assert_eq!(p.auth.api_key, "key-123");
    assert_eq!(p.auth.name, "Pishock_bridge");
    assert_eq!(p.devices[1].code, "1A2B3C4D5E6");
}

#[test]
fn default_names_and_app_name() {
    let config = object(vec![(
        "pishock",
        object(vec![
            ("username", text("u")),
            ("api_key", text("k")),
            ("devices", Json::Array(vec![object(vec![("share_code", text("AAA"))]), object(vec![("share_code", text("BBB"))])])),
        ]),
    )]);
    let p = credentials(&config, &no_env()).ok().unwrap().unwrap();
    assert_eq!(names(&p), vec!["Device 1", "Device 2"]);
    assert_eq!(p.auth.name, "Pishock_bridge");
}

#[test]
fn placeholders_give_monitor_only() {
    let config = object(vec![(
        "pishock",
        object(vec![
            ("username", text("<YOUR_PISHOCK_USERNAME>")),
            ("api_key", text("<YOUR_PISHOCK_API_KEY>")),
            ("devices", Json::Array(vec![object(vec![("name", text("Left")), ("share_code", text("1A2B"))])])),
        ]),
    )]);
    assert!(matches!(credentials(&config, &no_env()), Ok(None)));
}

#[test]
fn no_file_gives_monitor_only() {
    assert!(matches!(credentials(&Json::Object(vec![]), &no_env()), Ok(None)));
}

#[test]
fn entries_without_code_are_ignored() {
    let config = object(vec![(
        "pishock",
        object(vec![
            ("username", text("u")),
            ("api_key", text("k")),
            ("devices", Json::Array(vec![object(vec![("name", text("Empty")), ("share_code", text(""))])])),
        ]),
    )]);
    assert!(matches!(credentials(&config, &no_env()), Ok(None)));
}

#[test]
fn legacy_share_code() {
    let one = object(vec![("pishock", object(vec![("username", text("u")), ("api_key", text("k")), ("share_code", text("ABC"))]))]);
    assert_eq!(names(&credentials(&one, &no_env()).ok().unwrap().unwrap()), vec!["PiShock"]);
    let two = object(vec![("pishock", object(vec![("username", text("u")), ("api_key", text("k")), ("share_code", text("ABC,DEF"))]))]);
    assert_eq!(names(&credentials(&two, &no_env()).ok().unwrap().unwrap()), vec!["PiShock 1", "PiShock 2"]);
}

#[test]
fn environment_overrides_the_file() {
    let env = Env {
        username: Some("  bob ".to_string()),
        api_key: Some("   ".to_string()),
        name: Some("Bridge".to_string()),
        share_code: Some("ZZZ".to_string()),
    };
    let p = credentials(&readme_config(), &env).ok().unwrap().unwrap();
    assert_eq!(p.auth.username, "bob");
    assert_eq!(p.auth.api_key, "key-123");
    assert_eq!(p.auth.name, "Bridge");
    assert_eq!(names(&p), vec!["PiShock", "Left", "Right", "Both 1", "Both 2"]);
}

#[test]
fn error_not_an_object() {
    assert_eq!(message(credentials(&Json::Array(vec![]), &no_env())), "config.json must contain a pishock object");
    let config = object(vec![("pishock", text("x"))]);
    assert_eq!(message(credentials(&config, &no_env())), "config.json must contain a pishock object");
}

#[test]
fn error_field_not_text() {
    let config = object(vec![("pishock", object(vec![("username", Json::Number)]))]);
    assert_eq!(message(credentials(&config, &no_env())), "config.json: pishock.username must be a string");
    let config = object(vec![("pishock", object(vec![("api_key", Json::Null)]))]);
    assert_eq!(message(credentials(&config, &no_env())), "config.json: pishock.api_key must be a string");
}

#[test]
fn error_device_entries() {
    let config = object(vec![(
        "pishock",
        object(vec![("devices", Json::Array(vec![object(vec![]), Json::Bool(true)]))]),
    )]);
    assert_eq!(message(credentials(&config, &no_env())), "config.json: pishock.devices[1] must be an object");
    let config = object(vec![(
        "pishock",
        object(vec![("devices", Json::Array(vec![object(vec![("name", Json::Number), ("share_code", text("A"))])]))]),
    )]);
    assert_eq!(message(credentials(&config, &no_env())), "config.json: pishock.devices[0].name must be a string");
    let config = object(vec![(
        "pishock",
        object(vec![("devices", Json::Array(vec![object(vec![("share_code", Json::Array(vec![]))])]))]),
    )]);
    assert_eq!(message(credentials(&config, &no_env())), "config.json: pishock.devices[0].share_code must be a string");
    let config = object(vec![("pishock", object(vec![("devices", object(vec![]))]))]);
    assert_eq!(message(credentials(&config, &no_env())), "config.json: pishock.devices must be an array");
}

#[test]
fn devices_null_is_no_devices() {
    let config = object(vec![("pishock", object(vec![("username", text("u")), ("api_key", text("k")), ("devices", Json::Null)]))]);
    assert!(matches!(credentials(&config, &no_env()), Ok(None)));
}

#[test]
fn error_duplicate_names() {
    let config = object(vec![(
        "pishock",
        object(vec![(
            "devices",
            Json::Array(vec![
                object(vec![("name", text("Left")), ("share_code", text("A"))]),
                object(vec![("name", text("Left")), ("share_code", text("B"))]),
            ]),
        )]),
    )]);
    assert_eq!(message(credentials(&config, &no_env())), "config.json: duplicate device name Left");
}

#[test]
fn law_configured_names_are_unique() {
    let p = credentials(&readme_config(), &no_env()).ok().unwrap().unwrap();
    let mut names = p.device_names();
    assert!(!names.is_empty());
    names.sort();
    names.dedup();
    assert_eq!(names.len(), p.devices.len());
}

#[test]
fn requests() {
    let p = credentials(&readme_config(), &no_env()).ok().unwrap().unwrap();
    match p.request("Nobody", 1, 10, 1) {
        Err(e) => assert_eq!(e.message(), "Unknown device Nobody"),
        Ok(_) => panic!("unknown device accepted"),
    }
    assert!(matches!(p.request("Left", 3, 10, 1), Err(RequestError::InvalidSettings)));
    assert!(matches!(p.request("Left", 1, 0, 1), Err(RequestError::InvalidSettings)));
    assert!(matches!(p.request("Left", 1, 101, 1), Err(RequestError::InvalidSettings)));
    assert!(matches!(p.request("Left", 1, 10, 16), Err(RequestError::InvalidSettings)));
    assert_eq!(RequestError::InvalidSettings.message(), "Invalid operation, intensity or duration");
    let body = p.request("Both 2", 0, 40, 3).ok().unwrap();
    assert_eq!(body.code, "1A2B3C4D5E6");
    assert_eq!((body.op, body.intensity, body.duration), (0, 40, 3));
    assert_eq!(body.username, "alice");
    assert_eq!(body.apikey, "key-123");
    assert!(!body.random && !body.scale);
    let beep = p.request("Left", 2, 40, 3).ok().unwrap();
    assert_eq!(beep.intensity, 0);
}

#[test]
fn secrets_list() {
    let p = credentials(&readme_config(), &no_env()).ok().unwrap().unwrap();
    let s = p.secrets();
    assert_eq!(s[0], "key-123");
    assert_eq!(s[1], "alice");
    assert_eq!(s.len(), 2 + p.devices.len());
}

const README_TEXT: &str = r#"{
  "pishock": {
    "username": "alice",
    "api_key": "key-123",
    "name": "Pishock_bridge",
    "devices": [
      { "name": "Left",  "share_code": "1A2B3C4D5E6" },
      { "name": "Right", "share_code": "https://pishock.com/#/Control?sharecode=1A2B3C4D5E6" },
      { "name": "Both",  "share_code": "https://pishock.com/#/Control?sharecode=A1B2C3D4E5F,F5E4D3C2B1A" }
    ]
  }
}"#;

#[test]
fn loaded_text_gives_the_readme_devices() {
    let p = load_config(Some(README_TEXT), &no_env()).ok().unwrap().unwrap();
    let names: Vec<String> = p.devices.iter().map(|d| d.name.clone()).collect();
    assert_eq!(names, vec!["Left", "Right", "Both 1", "Both 2"]);
    assert_eq!(p.devices[2].code, "A1B2C3D4E5F");
    assert_eq!(p.devices[3].code, "F5E4D3C2B1A");
    assert_eq!(p.auth.username, "alice");
    assert_eq!(p.auth.api_key, "key-123");
}

#[test]
fn invalid_json_is_refused() {
    let r = load_config(Some("{ \"pishock\": "), &no_env());
    assert!(matches!(r, Err(LoadError::InvalidJson)));
    assert_eq!(r.err().unwrap().message(), "config.json contains invalid JSON");
    assert!(matches!(load_config(Some("{} trailing"), &no_env()), Err(LoadError::InvalidJson)));
}

#[test]
fn loaded_document_errors_are_config_errors() {
    let r = load_config(Some("[1, 2]"), &no_env());
    assert!(matches!(r, Err(LoadError::Config(ConfigError::NoSection))));
    assert_eq!(r.err().unwrap().message(), "config.json must contain a pishock object");
    let r = load_config(Some("{\"pishock\": {\"devices\": 3}}"), &no_env());
    assert!(matches!(r, Err(LoadError::Config(ConfigError::DevicesNotArray))));
}

#[test]
fn missing_file_counts_as_empty_object() {
    assert!(matches!(load_config(None, &no_env()), Ok(None)));
    let env = Env {
        username: Some("bob".to_string()),
        api_key: Some("k".to_string()),
        name: None,
        share_code: Some("ABC".to_string()),
    };
    let p = load_config(None, &env).ok().unwrap().unwrap();
    assert_eq!(p.devices.len(), 1);
    assert_eq!(p.devices[0].name, "PiShock");
    assert_eq!(p.auth.name, "Pishock_bridge");
}

#[test]
fn device_debug_text_hides_the_code() {
    let p = load_config(Some(README_TEXT), &no_env()).ok().unwrap().unwrap();
    assert_eq!(p.devices[0].debug_text(), "Device(Left)");
}
