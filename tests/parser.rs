use remote_bridge::filesystem::{Filesystem, BUFFER_TOO_SMALL};
use remote_bridge::parser::{
    parse_command, Command, EnterBootloaderTrait, Parser, PersistencyTrait, VersionInfo, HELP_TEXT,
    NOT_A_VALID_COMMAND, READ_HELP_TEXT, UNKNOWN_STORE_PARAMETER, UNKNOWN_VALUE_NAME, VALUE_TOO_LONG,
    VERSION_NOT_SET,
};
use remote_bridge::value_id::ValueId;

struct MockEnterBootloader {
    calls: usize,
}

impl MockEnterBootloader {
    fn new() -> Self {
        Self { calls: 0 }
    }
}

impl EnterBootloaderTrait for MockEnterBootloader {
    fn call(&mut self) {
        self.calls += 1;
    }
}

struct MockPersistency {
    store_calls: Vec<(ValueId, Vec<u8>)>,
    read_calls: Vec<ValueId>,
    read_values: Vec<(ValueId, Vec<u8>)>,
}

impl MockPersistency {
    fn new() -> Self {
        Self { store_calls: Vec::new(), read_calls: Vec::new(), read_values: Vec::new() }
    }
}

impl PersistencyTrait for MockPersistency {
    fn store(&mut self, value: &[u8], field: ValueId) {
        self.store_calls.push((field, value.to_vec()));
    }

    fn read(&mut self, field: ValueId, answer: &mut [u8]) -> Result<usize, &'static str> {
        self.read_calls.push(field);
        match self.read_values.iter().find(|(id, _)| *id == field) {
            Some((_, value)) => {
                let len = value.len().min(answer.len());
                answer[..len].copy_from_slice(&value[..len]);
                Ok(len)
            }
            None => Err("No value set for read"),
        }
    }
}

const COMMANDS: [(&str, &str, ValueId); 5] = [
    ("wifi_ssid", "myValue", ValueId::WifiSsid),
    ("wifi_password", "12345", ValueId::WifiPassword),
    ("mqtt_host_ip", "this.is.no.ip", ValueId::MqttHostIp),
    ("mqtt_broker_username", "UOWKDNDLE", ValueId::MqttBrokerUsername),
    ("mqtt_broker_password", "__::)()()", ValueId::MqttBrokerPassword),
];

fn mock_parser() -> Parser<MockEnterBootloader, MockPersistency> {
    Parser::new(MockEnterBootloader::new(), MockPersistency::new())
}

#[test]
fn lib_test_enter_bootloader() {
    let mut parser = mock_parser();
    let mut answer = [0u8; 100];
    let length = parser.parse_message(b"enter bootloader", &mut answer).unwrap();
    assert_eq!(&answer[..length], b"entering bootloader now");
    assert_eq!(parser.enter_bootloader.calls, 1);
}

#[test]
fn lib_test_nothing_to_parse() {
    let mut parser = mock_parser();
    let mut answer = [0u8; 100];
    assert_eq!(parser.parse_message(b"no command", &mut answer), Err(NOT_A_VALID_COMMAND));
    assert_eq!(parser.enter_bootloader.calls, 0);
}

#[test]
fn parser_test_enter_bootloader() {
    let mut parser = mock_parser();
    let mut answer: [u8; 32] = ['1' as u8; 32];
    let length = parser.parse_message(b"enter bootloader", &mut answer).unwrap();
    assert_eq!(&answer[..length], b"entering bootloader now");
    assert_eq!(parser.enter_bootloader.calls, 1);
}

#[test]
fn parser_test_ping_pong() {
    let mut parser = mock_parser();
    let mut answer: [u8; 32] = ['2' as u8; 32];
    let length = parser.parse_message(b"ping", &mut answer).unwrap();
    assert_eq!(&answer[..length], b"pong");
}

#[test]
fn parser_test_store_command() {
    for (command, value, value_id) in COMMANDS {
        let mut parser = mock_parser();

        let mut message = Vec::new();
        message.extend_from_slice(b"store ");
        message.extend_from_slice(command.as_bytes());
        message.extend_from_slice(b" ");
        message.extend_from_slice(value.as_bytes());

        let mut answer = ['\0' as u8; 0];
        let length = parser.parse_message(message.as_slice(), &mut answer).unwrap();
        assert_eq!(&answer[..length], b"");
        assert_eq!(parser.persistency.store_calls.len(), 1);
        assert_eq!(parser.persistency.store_calls[0].0, value_id);
        assert_eq!(parser.persistency.store_calls[0].1, value.as_bytes().to_vec());
    }
}

#[test]
fn invalid_store_value_name() {
    let mut parser = mock_parser();
    let mut answer = ['\0' as u8; 100];
    match parser.parse_message(b"store dummy", &mut answer) {
        Ok(_) => assert!(false),
        Err(msg) => assert!(
            msg == "unknown store parameter, type 'read help' for help ('store help' not yet available)"
        ),
    }
    assert!(parser.persistency.store_calls.is_empty());
}

#[test]
fn parser_test_read_command() {
    let mut parser = mock_parser();
    for (_, value, value_id) in COMMANDS {
        parser.persistency.read_values.push((value_id, value.as_bytes().to_vec()));
    }
    for (command, value, value_id) in COMMANDS {
        let mut message = Vec::new();
        message.extend_from_slice(b"read ");
        message.extend_from_slice(command.as_bytes());

        let mut answer = ['\0' as u8; 100];
        let length = parser.parse_message(message.as_slice(), &mut answer).unwrap();
        assert_eq!(&answer[..length], value.as_bytes());
        assert_eq!(*parser.persistency.read_calls.last().unwrap(), value_id);
    }
    assert_eq!(parser.persistency.read_calls.len(), 5);
}

#[test]
fn invalid_read_value_name() {
    let mut parser = mock_parser();
    let mut answer = ['\0' as u8; 100];
    match parser.parse_message(b"read adfasdf", &mut answer) {
        Ok(_) => assert!(false),
        Err(msg) => assert!(msg == "unknown value name, type 'read help' for help"),
    }
}

#[test]
fn parser_test_nothing_to_parse() {
    let mut parser = mock_parser();
    let mut answer = ['\0' as u8; 300];
    match parser.parse_message(b"no command", &mut answer) {
        Ok(_) => assert!(false),
        Err(msg) => assert!(msg == "not a valid command, type 'help' for help"),
    }
    assert!(parser.persistency.store_calls.is_empty());
    assert!(parser.persistency.read_calls.is_empty());
}

fn store_parser() -> Parser<MockEnterBootloader, Filesystem> {
    Parser::new(MockEnterBootloader::new(), Filesystem::new())
}

#[test]
fn scenario_ping() {
    let mut parser = store_parser();
    let mut answer = [0u8; 100];
    let length = parser.parse_message(b"ping", &mut answer).unwrap();
    assert_eq!(&answer[..length], b"pong");
}

#[test]
fn scenario_store_then_read() {
    let mut parser = store_parser();
    let mut answer = [0u8; 100];
    assert_eq!(parser.parse_message(b"store wifi_ssid myNetwork", &mut answer), Ok(0));
    let length = parser.parse_message(b"read wifi_ssid", &mut answer).unwrap();
    assert_eq!(&answer[..length], b"myNetwork");
}

#[test]
fn scenario_store_calls_store_once() {
    let mut parser = mock_parser();
    let mut answer = [0u8; 100];
    assert_eq!(parser.parse_message(b"store wifi_ssid myNetwork", &mut answer), Ok(0));
    assert_eq!(parser.persistency.store_calls, vec![(ValueId::WifiSsid, b"myNetwork".to_vec())]);
}

#[test]
fn scenario_unknown_read_leaves_store_untouched() {
    let mut parser = mock_parser();
    let mut answer = [0u8; 100];
    assert_eq!(
        parser.parse_message(b"read nonexistent_field", &mut answer),
        Err("unknown value name, type 'read help' for help")
    );
    assert!(parser.persistency.store_calls.is_empty());
    assert!(parser.persistency.read_calls.is_empty());
}

#[test]
fn scenario_garbage_command() {
    let mut parser = mock_parser();
    let mut answer = [0u8; 100];
    assert_eq!(
        parser.parse_message(b"garbage command", &mut answer),
        Err("not a valid command, type 'help' for help")
    );
    assert!(parser.persistency.store_calls.is_empty());
    assert!(parser.persistency.read_calls.is_empty());
}

#[test]
fn read_of_too_long_value_fails() {
    let mut parser = store_parser();
    let mut big = [0u8; 100];
    parser.parse_message(b"store mqtt_host_ip 192.168.100.200", &mut big).unwrap();
    let mut answer = [5u8; 4];
    assert_eq!(parser.parse_message(b"read mqtt_host_ip", &mut answer), Err(BUFFER_TOO_SMALL));
    assert_eq!(answer, [5u8; 4]);
}

#[test]
fn help_texts_are_cut_to_the_buffer() {
    let mut parser = store_parser();
    let mut small = [0u8; 8];
    assert_eq!(parser.parse_message(b"help", &mut small), Ok(8));
    assert_eq!(&small, b"commands");
    let mut answer = [0u8; 400];
    let length = parser.parse_message(b"help", &mut answer).unwrap();
    assert_eq!(&answer[..length], HELP_TEXT.as_bytes());
    let length = parser.parse_message(b"read help", &mut answer).unwrap();
    assert_eq!(&answer[..length], READ_HELP_TEXT.as_bytes());
    assert!(READ_HELP_TEXT.starts_with("read value names:\nwifi_ssid\n"));
}

#[test]
fn version_needs_build_information() {
    let mut parser = store_parser();
    let mut answer = [0u8; 100];
    assert_eq!(parser.parse_message(b"version", &mut answer), Err(VERSION_NOT_SET));
    let mut parser = parser.with_version(VersionInfo { version: "1.2.3", compile_time: "noon", commit_hash: "abc" });
    let length = parser.parse_message(b"version", &mut answer).unwrap();
    assert_eq!(&answer[..length], b"version: 1.2.3\ncompile time: noon\ncommit hash: abc");
}

#[test]
fn store_value_runs_to_end_of_line() {
    let mut parser = store_parser();
    let mut answer = [0u8; 100];
    parser.parse_message(b"store mqtt_broker_password with spaces ", &mut answer).unwrap();
    let length = parser.parse_message(b"read mqtt_broker_password", &mut answer).unwrap();
    assert_eq!(&answer[..length], b"with spaces ");
}

#[test]
fn store_without_separator_is_unknown() {
    let mut parser = mock_parser();
    let mut answer = [0u8; 10];
    assert_eq!(parser.parse_message(b"store wifi_ssid", &mut answer), Err(UNKNOWN_STORE_PARAMETER));
    assert_eq!(parser.parse_message(b"read", &mut answer), Err(NOT_A_VALID_COMMAND));
    assert_eq!(parser.parse_message(b"read ", &mut answer), Err(UNKNOWN_VALUE_NAME));
}

#[test]
fn too_long_value_is_rejected() {
    let mut parser = mock_parser();
    let mut message = b"store wifi_password ".to_vec();
    message.extend_from_slice(&[b'x'; 256]);
    let mut answer = [0u8; 10];
    assert_eq!(parser.parse_message(&message, &mut answer), Err(VALUE_TOO_LONG));
    assert!(parser.persistency.store_calls.is_empty());
    message.pop();
    assert_eq!(parser.parse_message(&message, &mut answer), Ok(0));
    assert_eq!(parser.persistency.store_calls[0].1.len(), 255);
}

#[test]
fn commands_of_lines() {
    assert_eq!(parse_command(b"ping"), Command::Ping);
    assert_eq!(parse_command(b"ping "), Command::Invalid);
    assert_eq!(parse_command(b"enter bootloader"), Command::EnterBootloader);
    assert_eq!(parse_command(b"version"), Command::Version);
    assert_eq!(parse_command(b"helpful"), Command::Help);
    assert_eq!(parse_command(b"store mqtt_host_ip 1.2.3.4"), Command::Store(ValueId::MqttHostIp, 19));
    assert_eq!(parse_command(b"read mqtt_broker_usernameXYZ"), Command::Read(ValueId::MqttBrokerUsername));
    assert_eq!(parse_command(b"read help"), Command::ReadHelp);
    assert_eq!(parse_command(b"read nothing"), Command::UnknownValueName);
    assert_eq!(parse_command(b"store x y"), Command::UnknownStoreParameter);
    assert_eq!(parse_command(b""), Command::Invalid);
}
