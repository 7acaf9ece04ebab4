//! The closed set of configuration fields that the store knows.

use vstd::prelude::*;
use vstd::string::StringSliceAdditionalSpecFns;

verus! {

/// Number of configuration fields; also the size of the length table.
pub const FILE_DESCRIPTOR_SIZE: usize = 5;

/// One configuration field. The order of the variants is the order of the
/// fields in the length table and in the value region of the sector image.
#[derive(Clone, Copy, Debug, PartialEq, Eq, Structural)]
pub enum ValueId {
    WifiSsid,
    WifiPassword,
    MqttHostIp,
    MqttBrokerUsername,
    MqttBrokerPassword,
}

impl ValueId {
    /// Position of the field in the length table.
    pub open spec fn spec_index(self) -> int {
        match self {
            ValueId::WifiSsid => 0,
            ValueId::WifiPassword => 1,
            ValueId::MqttHostIp => 2,
            ValueId::MqttBrokerUsername => 3,
            ValueId::MqttBrokerPassword => 4,
        }
    }

    /// The field at position `i` of the length table.
    pub open spec fn at(i: int) -> ValueId {
        if i == 0 {
            ValueId::WifiSsid
        } else if i == 1 {
            ValueId::WifiPassword
        } else if i == 2 {
            ValueId::MqttHostIp
        } else if i == 3 {
            ValueId::MqttBrokerUsername
        } else {
            ValueId::MqttBrokerPassword
        }
    }

    /// Name of the field in the command protocol.
    pub open spec fn spec_name(self) -> Seq<u8> {
        self.spec_name_str().spec_bytes()
    }

    /// Position of the field in the length table.
    pub fn index(&self) -> (r: usize)
        ensures
            r as int == self.spec_index(),
            r < FILE_DESCRIPTOR_SIZE,
    {
        match self {
            ValueId::WifiSsid => 0,
            ValueId::WifiPassword => 1,
            ValueId::MqttHostIp => 2,
            ValueId::MqttBrokerUsername => 3,
            ValueId::MqttBrokerPassword => 4,
        }
    }

    /// Name of the field in the command protocol.
    pub fn name(&self) -> (r: &'static str)
        ensures
            r == self.spec_name_str(),
    {
        match self {
            ValueId::WifiSsid => "wifi_ssid",
            ValueId::WifiPassword => "wifi_password",
            ValueId::MqttHostIp => "mqtt_host_ip",
            ValueId::MqttBrokerUsername => "mqtt_broker_username",
            ValueId::MqttBrokerPassword => "mqtt_broker_password",
        }
    }

    /// Name of the field in the command protocol, as text.
    pub open spec fn spec_name_str(self) -> &'static str {
        match self {
            ValueId::WifiSsid => "wifi_ssid",
            ValueId::WifiPassword => "wifi_password",
            ValueId::MqttHostIp => "mqtt_host_ip",
            ValueId::MqttBrokerUsername => "mqtt_broker_username",
            ValueId::MqttBrokerPassword => "mqtt_broker_password",
        }
    }
}

/// `at` and `spec_index` are inverse to each other.
pub proof fn lemma_index_at(id: ValueId, i: int)
    ensures
        0 <= id.spec_index() < FILE_DESCRIPTOR_SIZE,
        ValueId::at(id.spec_index()) == id,
        0 <= i < FILE_DESCRIPTOR_SIZE ==> ValueId::at(i).spec_index() == i,
{
}

} // verus!
