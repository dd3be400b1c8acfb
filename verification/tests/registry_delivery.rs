use mbq::config::Config;
use mbq::config::ProfileConfig;
use mbq::engine::drop_all;
use mbq::engine::needs_session;
use mbq::engine::plan_send;
use mbq::engine::revive_all;
use mbq::engine::send;
use mbq::engine::show;
use mbq::engine::smtp_params;
use mbq::envelope::prepare_message;
use mbq::errors::EngineError;
use mbq::store::MsgEntry;
use mbq::store::Store;

struct StubTransport {
    connection_attempts: usize,
}

impl StubTransport {
    fn connect(&mut self) {
        self.connection_attempts += 1;
    }
}

fn profile(tag: &str) -> ProfileConfig {
    ProfileConfig {
        queue_dir: format!("/var/mail/{}/queue", tag),
        sent_dir: format!("/var/mail/{}/sent", tag),
        revive_dir: format!("/var/mail/{}/revive", tag),
        smtp_host: format!("smtp.{}.example.com", tag),
        smtp_port: 465,
        smtp_user: format!("user-{}", tag),
        smtp_pass_cmd: format!("pass {}", tag),
        smtp_accept_invalid_cert: false,
    }
}

fn registry() -> Config {
    Config::new(vec![
        ("home".to_string(), profile("home")),
        ("work".to_string(), profile("work")),
    ])
    .unwrap()
}

fn message(headers: &[(&str, &str)]) -> Vec<u8> {
    let mut data = Vec::new();
    for (name, value) in headers {
        data.extend_from_slice(name.as_bytes());
        data.extend_from_slice(b": ");
        data.extend_from_slice(value.as_bytes());
        data.extend_from_slice(b"\r\n");
    }
    data.extend_from_slice(b"\r\nbody\r\n");
    data
}

fn entry(id: &str, headers: &[(&str, &str)]) -> MsgEntry {
    MsgEntry {
        id: id.as_bytes().to_vec(),
        data: message(headers),
        draft: false,
    }
}

#[test]
fn registry_refuses_duplicate_names() {
    let err = Config::new(vec![
        ("home".to_string(), profile("home")),
        ("home".to_string(), profile("again")),
    ])
    .unwrap_err();
    assert_eq!(err, EngineError::ConfigError);
}

#[test]
fn config_for_profile_resolves_exact_name() {
    let config = registry();
    let c = config.config_for_profile("work").unwrap();
    assert_eq!(c.queue_dir, "/var/mail/work/queue");
    let err = config.config_for_profile("nope").unwrap_err();
    assert_eq!(err, EngineError::ConfigError);
}

#[test]
fn map_applies_to_one_or_all() {
    let config = registry();
    let all = config.map(None).unwrap();
    assert_eq!(all.len(), 2);
    assert_eq!(all[0].0, "home");
    assert_eq!(all[1].0, "work");
    let one = config.map(Some("work")).unwrap();
    assert_eq!(one.len(), 1);
    assert_eq!(one[0].0, "work");
    assert_eq!(config.map(Some("nope")).unwrap_err(), EngineError::ConfigError);
}

#[test]
fn show_and_drop_all_resolve_queue_dirs() {
    let config = registry();
    let shown = show(&config, None).unwrap();
    assert_eq!(shown.len(), 2);
    assert_eq!(shown[0], ("home".to_string(), "/var/mail/home/queue".to_string()));
    let dropped = drop_all(&config, Some("work")).unwrap();
    assert_eq!(dropped, vec![("work".to_string(), "/var/mail/work/queue".to_string())]);
    assert_eq!(show(&config, Some("nope")).unwrap_err(), EngineError::ConfigError);
}

#[test]
fn revive_all_resolves_queue_and_revive_dirs() {
    let config = registry();
    let jobs = revive_all(&config, Some("home")).unwrap();
    assert_eq!(
        jobs,
        vec![(
            "home".to_string(),
            "/var/mail/home/queue".to_string(),
            "/var/mail/home/revive".to_string()
        )]
    );
}

#[test]
fn smtp_params_fix_timeout_and_pool() {
    let p = smtp_params(&profile("home"));
    assert_eq!(p.timeout_secs, 30);
    assert_eq!(p.pool_max_size, 1);
    assert_eq!(p.host, "smtp.home.example.com");
    assert_eq!(p.port, 465);
    assert_eq!(p.user, "user-home");
    assert_eq!(p.pass_cmd, "pass home");
    assert!(!p.accept_invalid_cert);
}

#[test]
fn send_bundles_one_job_per_profile() {
    let config = registry();
    let jobs = send(&config, None, &Some(vec![0, 2])).unwrap();
    assert_eq!(jobs.len(), 2);
    assert_eq!(jobs[0].profile, "home");
    assert_eq!(jobs[0].queue_dir, "/var/mail/home/queue");
    assert_eq!(jobs[0].sent_dir, "/var/mail/home/sent");
    assert_eq!(jobs[0].smtp.timeout_secs, 30);
    assert_eq!(jobs[0].indices, Some(vec![0, 2]));
    assert_eq!(jobs[1].profile, "work");
    assert_eq!(send(&config, Some("nope"), &None).unwrap_err(), EngineError::ConfigError);
}

#[test]
fn plan_with_out_of_range_index_fails_and_moves_nothing() {
    let store = Store::open(vec![
        entry("1", &[("From", "a@example.com"), ("To", "b@example.com"), ("Subject", "s")]),
        entry("2", &[("From", "a@example.com"), ("To", "b@example.com"), ("Subject", "s")]),
    ])
    .unwrap();
    let err = plan_send(&store, &Some(vec![0, 2])).unwrap_err();
    assert_eq!(err, EngineError::InvalidIndex);
    assert_eq!(store.count(), 2);
}

#[test]
fn plan_selects_requested_positions_in_order() {
    let store = Store::open(vec![
        entry("a", &[("From", "a@example.com"), ("To", "b@example.com"), ("Subject", "s")]),
        entry("b", &[("From", "a@example.com"), ("To", "b@example.com"), ("Subject", "s")]),
        entry("c", &[("From", "a@example.com"), ("To", "b@example.com"), ("Subject", "s")]),
    ])
    .unwrap();
    let plan = plan_send(&store, &Some(vec![2, 0, 2])).unwrap();
    assert_eq!(plan, vec![b"a".to_vec(), b"c".to_vec()]);
    let all = plan_send(&store, &None).unwrap();
    assert_eq!(all, vec![b"a".to_vec(), b"b".to_vec(), b"c".to_vec()]);
}

#[test]
fn empty_queue_succeeds_without_opening_a_session() {
    let store = Store::open(vec![]).unwrap();
    let plan = plan_send(&store, &None).unwrap();
    let mut transport = StubTransport { connection_attempts: 0 };
    if needs_session(&plan) {
        transport.connect();
    }
    assert!(plan.is_empty());
    assert_eq!(transport.connection_attempts, 0);
}

#[test]
fn missing_to_header_fails_with_parse_error_and_message_stays() {
    let queue = Store::open(vec![
        entry("1", &[("From", "a@example.com"), ("Subject", "no recipient")]),
        entry("2", &[("From", "a@example.com"), ("To", "b@example.com"), ("Subject", "later")]),
    ])
    .unwrap();
    let err = prepare_message(&queue.entry_at(0).data.clone()).unwrap_err();
    assert_eq!(err, EngineError::ParseError);
    assert_eq!(queue.list(), vec![b"1".to_vec(), b"2".to_vec()]);
}

#[test]
fn prepare_message_derives_sender_and_recipients() {
    let data = message(&[
        ("From", "a@example.com"),
        ("To", "b@example.com, c@example.com"),
        ("Cc", "d@example.com"),
        ("Bcc", "e@example.com"),
        ("Subject", "s"),
    ]);
    let env = prepare_message(&data).unwrap();
    assert_eq!(env.sender, b"a@example.com".to_vec());
    assert_eq!(
        env.recipients,
        vec![
            b"b@example.com".to_vec(),
            b"c@example.com".to_vec(),
            b"d@example.com".to_vec(),
            b"e@example.com".to_vec(),
        ]
    );
}

#[test]
fn prepare_message_rejects_malformed_recipient() {
    let data = message(&[
        ("From", "a@example.com"),
        ("To", "not a mail address"),
        ("Subject", "s"),
    ]);
    let err = prepare_message(&data).unwrap_err();
    assert_eq!(err, EngineError::ParseError);
}

#[test]
fn prepare_message_rejects_missing_from() {
    let data = message(&[("To", "b@example.com"), ("Subject", "s")]);
    let err = prepare_message(&data).unwrap_err();
    assert_eq!(err, EngineError::ParseError);
}

#[test]
fn error_kinds_describe_themselves() {
    assert_eq!(
        EngineError::TransportError.describe(),
        "smtp connect, authenticate or send failure"
    );
    assert_eq!(
        EngineError::InvalidIndex.describe(),
        "index outside the queue"
    );
}
