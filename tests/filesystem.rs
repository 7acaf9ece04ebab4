use remote_bridge::filesystem::{Filesystem, BUFFER_TOO_SMALL, DATA_SIZE};
use remote_bridge::parser::PersistencyTrait;
use remote_bridge::value_id::{ValueId, FILE_DESCRIPTOR_SIZE};

const ALL_FIELDS: [ValueId; 5] = [
    ValueId::WifiSsid,
    ValueId::WifiPassword,
    ValueId::MqttHostIp,
    ValueId::MqttBrokerUsername,
    ValueId::MqttBrokerPassword,
];

fn read_field(f: &mut Filesystem, id: ValueId) -> Vec<u8> {
    let mut answer = [0u8; 300];
    let length = f.read(id, &mut answer).unwrap();
    answer[..length].to_vec()
}

#[test]
fn test_update_values_indexes() {
    let mut f = Filesystem::new();

    f.values[0].length = 5;
    f.values[0].index = 0;
    f.values[1].length = 25;
    f.values[1].index = 0;
    f.values[2].length = 42;
    f.values[2].index = 0;
    f.values[3].length = 68;
    f.values[3].index = 0;
    f.values[4].length = 9;
    f.values[4].index = 0;

    f.update_values_indexes();

    assert_eq!(f.values[0].index, FILE_DESCRIPTOR_SIZE);
    assert_eq!(f.values[1].index, FILE_DESCRIPTOR_SIZE + 5);
    assert_eq!(f.values[2].index, FILE_DESCRIPTOR_SIZE + 5 + 25);
    assert_eq!(f.values[3].index, FILE_DESCRIPTOR_SIZE + 5 + 25 + 42);
    assert_eq!(f.values[4].index, FILE_DESCRIPTOR_SIZE + 5 + 25 + 42 + 68);
}

#[test]
fn test_get_length_and_index() {
    let mut f = Filesystem::new();

    f.values[0].length = 1;
    f.values[0].index = 2;
    f.values[1].length = 3;
    f.values[1].index = 4;
    f.values[2].length = 5;
    f.values[2].index = 6;
    f.values[3].length = 7;
    f.values[3].index = 8;
    f.values[4].length = 9;
    f.values[4].index = 10;

    let (l, i) = f.get_length_and_index(&ValueId::WifiSsid);
    assert_eq!(l, 1);
    assert_eq!(i, 2);
    let (l, i) = f.get_length_and_index(&ValueId::WifiPassword);
    assert_eq!(l, 3);
    assert_eq!(i, 4);
    let (l, i) = f.get_length_and_index(&ValueId::MqttHostIp);
    assert_eq!(l, 5);
    assert_eq!(i, 6);
    let (l, i) = f.get_length_and_index(&ValueId::MqttBrokerUsername);
    assert_eq!(l, 7);
    assert_eq!(i, 8);
    let (l, i) = f.get_length_and_index(&ValueId::MqttBrokerPassword);
    assert_eq!(l, 9);
    assert_eq!(i, 10);
    let (l, i) = f.get_length_and_index(&ValueId::MqttBrokerPassword);
    assert_eq!(l, 9);
    assert_eq!(i, 10);
}

#[test]
fn test_update_values() {
    let mut f = Filesystem::new();

    assert_eq!(f.values.len(), 5);

    let value_data: [&[u8]; 5] = [
        b"my_wifi_ssid",
        b"my_wifi_password",
        b"my_mqtt_host_ip",
        b"my_mqtt_broker_username",
        b"mqtt_broker_password",
    ];

    f.update_values(&ValueId::WifiSsid, value_data[0]);
    f.update_values(&ValueId::WifiPassword, value_data[1]);
    f.update_values(&ValueId::MqttHostIp, value_data[2]);
    f.update_values(&ValueId::MqttBrokerUsername, value_data[3]);
    f.update_values(&ValueId::MqttBrokerPassword, value_data[4]);

    assert_eq!(f.values[0].index, FILE_DESCRIPTOR_SIZE);
    assert_eq!(f.values[1].index, FILE_DESCRIPTOR_SIZE + value_data[0].len());
    assert_eq!(f.values[2].index, FILE_DESCRIPTOR_SIZE + value_data[0].len() + value_data[1].len());
    assert_eq!(
        f.values[3].index,
        FILE_DESCRIPTOR_SIZE + value_data[0].len() + value_data[1].len() + value_data[2].len()
    );
    assert_eq!(
        f.values[4].index,
        FILE_DESCRIPTOR_SIZE + value_data[0].len() + value_data[1].len() + value_data[2].len() + value_data[3].len()
    );

    for n in 0..f.values.len() {
        assert_eq!(f.values[n].length, value_data[n].len() as u8);
        assert_eq!(f.data[n], value_data[n].len() as u8);

        let index = f.values[0].index;
        let length = f.values[0].length as usize;
        assert_eq!(&f.data[index..index + length] == value_data[0], true);
    }
}

#[test]
fn new_store_is_empty_and_sector_sized() {
    let mut f = Filesystem::new();
    assert_eq!(f.data.len(), DATA_SIZE);
    for id in ALL_FIELDS {
        assert_eq!(read_field(&mut f, id), Vec::<u8>::new());
    }
}

#[test]
fn round_trip_of_every_field() {
    let mut f = Filesystem::new();
    let values: [&[u8]; 5] = [b"net", b"secret", b"10.0.0.1", b"user", b"pw"];
    for (id, v) in ALL_FIELDS.iter().zip(values.iter()) {
        f.store(v, *id);
    }
    for (id, v) in ALL_FIELDS.iter().zip(values.iter()) {
        assert_eq!(read_field(&mut f, *id), v.to_vec());
    }
}

#[test]
fn round_trip_of_longest_value() {
    let mut f = Filesystem::new();
    let long = vec![0xABu8; 255];
    f.store(b"a", ValueId::WifiSsid);
    f.store(&long, ValueId::WifiPassword);
    f.store(b"b", ValueId::MqttHostIp);
    assert_eq!(read_field(&mut f, ValueId::WifiPassword), long);
    assert_eq!(read_field(&mut f, ValueId::WifiSsid), b"a".to_vec());
    assert_eq!(read_field(&mut f, ValueId::MqttHostIp), b"b".to_vec());
    assert_eq!(f.data[1], 255);
}

#[test]
fn non_interference_of_stores() {
    let mut f = Filesystem::new();
    f.store(b"ssid", ValueId::WifiSsid);
    f.store(b"host", ValueId::MqttHostIp);
    f.store(b"pass", ValueId::MqttBrokerPassword);
    f.store(b"a much longer password", ValueId::WifiPassword);
    assert_eq!(read_field(&mut f, ValueId::WifiSsid), b"ssid".to_vec());
    assert_eq!(read_field(&mut f, ValueId::MqttHostIp), b"host".to_vec());
    assert_eq!(read_field(&mut f, ValueId::MqttBrokerPassword), b"pass".to_vec());
    assert_eq!(read_field(&mut f, ValueId::MqttBrokerUsername), Vec::<u8>::new());
}

#[test]
fn shrink_then_grow_keeps_fields_packed() {
    let mut f = Filesystem::new();
    f.store(b"first", ValueId::WifiSsid);
    f.store(b"0123456789", ValueId::WifiPassword);
    f.store(b"last", ValueId::MqttBrokerPassword);

    f.store(b"012", ValueId::WifiPassword);
    assert_eq!(read_field(&mut f, ValueId::WifiPassword), b"012".to_vec());
    assert_eq!(read_field(&mut f, ValueId::MqttBrokerPassword), b"last".to_vec());
    assert_eq!(f.values[4].index, FILE_DESCRIPTOR_SIZE + 5 + 3);

    f.store(b"0123456789abcdef", ValueId::WifiPassword);
    assert_eq!(read_field(&mut f, ValueId::WifiPassword), b"0123456789abcdef".to_vec());
    assert_eq!(read_field(&mut f, ValueId::WifiSsid), b"first".to_vec());
    assert_eq!(read_field(&mut f, ValueId::MqttBrokerPassword), b"last".to_vec());
    assert_eq!(f.values[2].index, FILE_DESCRIPTOR_SIZE + 5 + 16);
    assert_eq!(f.values[4].index, FILE_DESCRIPTOR_SIZE + 5 + 16);
    // the used part of the sector is the table plus the values
    assert_eq!(f.values[4].index + f.values[4].length as usize, FILE_DESCRIPTOR_SIZE + 5 + 16 + 4);
}

#[test]
fn storing_empty_value_clears_field() {
    let mut f = Filesystem::new();
    f.store(b"abc", ValueId::MqttHostIp);
    f.store(b"def", ValueId::MqttBrokerUsername);
    f.store(b"", ValueId::MqttHostIp);
    assert_eq!(read_field(&mut f, ValueId::MqttHostIp), Vec::<u8>::new());
    assert_eq!(read_field(&mut f, ValueId::MqttBrokerUsername), b"def".to_vec());
    assert_eq!(f.data[2], 0);
}

#[test]
fn buffer_too_small_leaves_buffer_unchanged() {
    let mut f = Filesystem::new();
    f.store(b"myNetwork", ValueId::WifiSsid);
    let mut answer = [7u8; 8];
    assert_eq!(f.read(ValueId::WifiSsid, &mut answer), Err(BUFFER_TOO_SMALL));
    assert_eq!(answer, [7u8; 8]);
    let mut exact = [7u8; 9];
    assert_eq!(f.read(ValueId::WifiSsid, &mut exact), Ok(9));
    assert_eq!(&exact, b"myNetwork");
}

#[test]
fn read_keeps_bytes_after_the_value() {
    let mut f = Filesystem::new();
    f.store(b"ab", ValueId::WifiSsid);
    let mut answer = [9u8; 4];
    assert_eq!(f.read(ValueId::WifiSsid, &mut answer), Ok(2));
    assert_eq!(answer, [b'a', b'b', 9, 9]);
}

#[test]
fn read_all_rebuilds_directory_from_image() {
    let mut image = vec![0u8; DATA_SIZE];
    image[0] = 2;
    image[1] = 0;
    image[2] = 3;
    image[5] = b'h';
    image[6] = b'i';
    image[7] = b'x';
    image[8] = b'y';
    image[9] = b'z';
    let mut f = Filesystem::new();
    f.read_all(&image);
    assert_eq!(f.values[2].index, 7);
    assert_eq!(f.values[3].index, 10);
    assert_eq!(read_field(&mut f, ValueId::WifiSsid), b"hi".to_vec());
    assert_eq!(read_field(&mut f, ValueId::MqttHostIp), b"xyz".to_vec());
    assert_eq!(f.data, image);
}

#[test]
fn store_writes_length_table_and_values() {
    let mut f = Filesystem::new();
    f.store(b"xy", ValueId::WifiPassword);
    f.store(b"q", ValueId::WifiSsid);
    assert_eq!(&f.data[0..5], &[1, 2, 0, 0, 0]);
    assert_eq!(&f.data[5..8], b"qxy");
}

#[test]
fn field_positions_and_names() {
    let names = ["wifi_ssid", "wifi_password", "mqtt_host_ip", "mqtt_broker_username", "mqtt_broker_password"];
    for (n, id) in ALL_FIELDS.iter().enumerate() {
        assert_eq!(id.index(), n);
        assert_eq!(id.name(), names[n]);
    }
    let v = remote_bridge::filesystem::Value::new(ValueId::MqttHostIp);
    assert_eq!((v.id, v.length, v.index), (ValueId::MqttHostIp, 0, 0));
}
