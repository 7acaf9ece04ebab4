//! What the network task needs from the store: the WiFi and MQTT
//! credentials, and the broker's IPv4 address written as text.

use vstd::prelude::*;
use crate::filesystem::BUFFER_TOO_SMALL;
use crate::parser::PersistencyTrait;
use crate::value_id::ValueId;
use crate::bytes::copy_into;
use vstd::string::StringSliceAdditionalSpecFns;

verus! {

/// Size of the buffers that most credentials are read into.
pub const CREDENTIAL_LENGTH: usize = 32;

/// Size of the buffer that the broker password is read into.
pub const MQTT_BROKER_PASSWORD_LENGTH: usize = 64;

/// Separates the parts of an IPv4 address.
pub const DOT: u8 = 46;

/// Leading sign that a decimal number may carry.
pub const PLUS: u8 = 43;

/// `s` with its trailing zero bytes removed.
pub open spec fn trim_zeros(s: Seq<u8>) -> Seq<u8>
    decreases s.len(),
{
    if s.len() > 0 && s.last() == 0 {
        trim_zeros(s.drop_last())
    } else {
        s
    }
}

/// Size of the buffer that field `i` is read into.
pub open spec fn credential_capacity(i: int) -> int {
    if i == ValueId::MqttBrokerPassword.spec_index() {
        MQTT_BROKER_PASSWORD_LENGTH as int
    } else {
        CREDENTIAL_LENGTH as int
    }
}

/// The stored credentials, without trailing zero bytes.
pub struct Credentials {
    pub wifi_ssid: Vec<u8>,
    pub wifi_password: Vec<u8>,
    pub mqtt_host_ip: Vec<u8>,
    pub mqtt_broker_username: Vec<u8>,
    pub mqtt_broker_password: Vec<u8>,
}

impl Credentials {
    /// The credentials in `ValueId` order.
    pub open spec fn fields(&self) -> Seq<Seq<u8>> {
        seq![
            self.wifi_ssid@,
            self.wifi_password@,
            self.mqtt_host_ip@,
            self.mqtt_broker_username@,
            self.mqtt_broker_password@,
        ]
    }
}

/// Reads `field` into a zeroed buffer of `size` bytes and returns the buffer
/// without its trailing zeros.
fn read_credential<P: PersistencyTrait>(persistency: &mut P, field: ValueId, size: usize) -> (r: Result<Vec<u8>, &'static str>)
    requires
        old(persistency).inv(),
    ensures
        final(persistency).inv(),
        final(persistency).stored() == old(persistency).stored(),
        ({
            let v = old(persistency).stored()[field.spec_index()];
            if v.len() <= size {
                r matches Ok(c) && c@ == trim_zeros(v)
            } else {
                r == Err::<Vec<u8>, &'static str>(BUFFER_TOO_SMALL)
            }
        }),
{
    let mut buffer: Vec<u8> = Vec::new();
    let mut n: usize = 0;
    while n < size
        invariant
            n <= size,
            buffer@ == Seq::new(n as nat, |i: int| 0u8),
        decreases size - n,
    {
        buffer.push(0u8);
        n = n + 1;
    }
    let ghost zeros = buffer@;
    let result = persistency.read(field, buffer.as_mut_slice());
    match result {
        Ok(_) => {
            let trimmed = trim_trailing_zeros(buffer);
            proof {
                let v = old(persistency).stored()[field.spec_index()];
                lemma_trim_padding(v, (size - v.len()) as nat);
                assert(copy_into(zeros, v) =~= v + Seq::new((size - v.len()) as nat, |i: int| 0u8));
            }
            Ok(trimmed)
        },
        Err(e) => Err(e),
    }
}

/// Zero bytes appended to a value are trimmed along with the value's own.
proof fn lemma_trim_padding(v: Seq<u8>, k: nat)
    ensures
        trim_zeros(v + Seq::new(k, |i: int| 0u8)) == trim_zeros(v),
    decreases k,
{
    if k > 0 {
        let padded = v + Seq::new(k, |i: int| 0u8);
        assert(padded.drop_last() =~= v + Seq::new((k - 1) as nat, |i: int| 0u8));
        lemma_trim_padding(v, (k - 1) as nat);
    } else {
        assert(v + Seq::new(k, |i: int| 0u8) =~= v);
    }
}

/// Removes the trailing zero bytes of `v`.
fn trim_trailing_zeros(v: Vec<u8>) -> (r: Vec<u8>)
    ensures
        r@ == trim_zeros(v@),
{
    let ghost untrimmed = v@;
    let mut v = v;
    while v.len() > 0 && v[v.len() - 1] == 0
        invariant
            trim_zeros(v@) == trim_zeros(untrimmed),
        decreases v@.len(),
    {
        v.pop();
    }
    v
}

/// Reads the five credentials from the store, each into a zeroed buffer of
/// its size, and returns them without trailing zero bytes. Fails with
/// `BUFFER_TOO_SMALL` where a stored value is longer than its buffer.
pub fn get_credentials<P: PersistencyTrait>(persistency: &mut P) -> (r: Result<Credentials, &'static str>)
    requires
        old(persistency).inv(),
    ensures
        final(persistency).inv(),
        final(persistency).stored() == old(persistency).stored(),
        (forall|i: int| 0 <= i < 5 ==> #[trigger] old(persistency).stored()[i].len() <= credential_capacity(i))
            <==> r is Ok,
        r matches Ok(c) ==> forall|i: int|
            0 <= i < 5 ==> #[trigger] c.fields()[i] == trim_zeros(old(persistency).stored()[i]),
        r is Err ==> r == Err::<Credentials, &'static str>(BUFFER_TOO_SMALL),
{
    let ghost stored = persistency.stored();
    let wifi_ssid = match read_credential(persistency, ValueId::WifiSsid, CREDENTIAL_LENGTH) {
        Ok(v) => v,
        Err(e) => return Err(e),
    };
    let wifi_password = match read_credential(persistency, ValueId::WifiPassword, CREDENTIAL_LENGTH) {
        Ok(v) => v,
        Err(e) => return Err(e),
    };
    let mqtt_host_ip = match read_credential(persistency, ValueId::MqttHostIp, CREDENTIAL_LENGTH) {
        Ok(v) => v,
        Err(e) => return Err(e),
    };
    let mqtt_broker_username = match read_credential(persistency, ValueId::MqttBrokerUsername, CREDENTIAL_LENGTH) {
        Ok(v) => v,
        Err(e) => {
            assert(!(stored[3].len() <= credential_capacity(3)));
            return Err(e);
        },
    };
    let mqtt_broker_password = match read_credential(persistency, ValueId::MqttBrokerPassword, MQTT_BROKER_PASSWORD_LENGTH) {
        Ok(v) => v,
        Err(e) => {
            assert(!(stored[4].len() <= credential_capacity(4)));
            return Err(e);
        },
    };
    let c = Credentials { wifi_ssid, wifi_password, mqtt_host_ip, mqtt_broker_username, mqtt_broker_password };
    assert forall|i: int| 0 <= i < 5 implies #[trigger] stored[i].len() <= credential_capacity(i) by {}
    Ok(c)
}

/// `b` is an ASCII digit.
pub open spec fn is_digit(b: u8) -> bool {
    48 <= b <= 57
}

/// The number that the digits `s` write in decimal.
pub open spec fn digits_value(s: Seq<u8>) -> int
    decreases s.len(),
{
    if s.len() == 0 {
        0
    } else {
        digits_value(s.drop_last()) * 10 + (s.last() - 48)
    }
}

/// `s` without its leading `+`, if it has one.
pub open spec fn strip_plus(s: Seq<u8>) -> Seq<u8> {
    if s.len() > 0 && s[0] == PLUS {
        s.drop_first()
    } else {
        s
    }
}

/// Every byte of `d` is a digit.
pub open spec fn all_digits(d: Seq<u8>) -> bool {
    forall|i: int| 0 <= i < d.len() ==> is_digit(#[trigger] d[i])
}

/// The byte that `s` writes in decimal, read as `u8`'s `FromStr` reads it:
/// an optional `+`, then one or more digits, of value at most 255.
pub open spec fn decimal_u8(s: Seq<u8>) -> Option<u8> {
    let d = strip_plus(s);
    if d.len() > 0 && all_digits(d) && digits_value(d) <= 255 {
        Some(digits_value(d) as u8)
    } else {
        None
    }
}

/// The parts of `s` between dots; a text without dots is one part.
pub open spec fn split_dots(s: Seq<u8>) -> Seq<Seq<u8>>
    decreases s.len(),
{
    if s.len() == 0 {
        seq![Seq::<u8>::empty()]
    } else {
        let init = split_dots(s.drop_last());
        if s.last() == DOT {
            init.push(Seq::<u8>::empty())
        } else {
            init.update(init.len() - 1, init.last().push(s.last()))
        }
    }
}

/// The address that `s` writes as four decimal bytes separated by dots.
pub open spec fn ip_of(s: Seq<u8>) -> Option<(u8, u8, u8, u8)> {
    let parts = split_dots(s);
    if parts.len() == 4 && decimal_u8(parts[0]) is Some && decimal_u8(parts[1]) is Some && decimal_u8(
        parts[2],
    ) is Some && decimal_u8(parts[3]) is Some {
        Some(
            (
                decimal_u8(parts[0]).unwrap(),
                decimal_u8(parts[1]).unwrap(),
                decimal_u8(parts[2]).unwrap(),
                decimal_u8(parts[3]).unwrap(),
            ),
        )
    } else {
        None
    }
}

/// Reads the decimal byte that `s[start..end]` writes.
fn parse_decimal_u8(s: &[u8], start: usize, end: usize) -> (r: Option<u8>)
    requires
        start <= end <= s@.len(),
    ensures
        r == decimal_u8(s@.subrange(start as int, end as int)),
{
    let ghost part = s@.subrange(start as int, end as int);
    let mut i = start;
    if i < end && s[i] == PLUS {
        i = i + 1;
    }
    let ghost d = s@.subrange(i as int, end as int);
    assert(d =~= strip_plus(part));
    if i == end {
        return None;
    }
    let first = i;
    let mut value: u32 = 0;
    while i < end
        invariant
            first <= i <= end <= s@.len(),
            d == s@.subrange(first as int, end as int),
            part == s@.subrange(start as int, end as int),
            d == strip_plus(part),
            d.len() > 0,
            forall|j: int| first <= j < i ==> is_digit(#[trigger] s@[j]),
            value as int == digits_value(s@.subrange(first as int, i as int)),
            value <= 255,
        decreases end - i,
    {
        let b = s[i];
        assert(s@.subrange(first as int, i + 1).drop_last() =~= s@.subrange(first as int, i as int));
        if b < 48 || b > 57 {
            assert(!is_digit(d[i - first]));
            assert(!all_digits(d));
            return None;
        }
        value = value * 10 + (b - 48) as u32;
        i = i + 1;
        if value > 255 {
            proof {
                assert(d.subrange(0, i - first) =~= s@.subrange(first as int, i as int));
                if all_digits(d) {
                    lemma_digits_grow(d, i - first);
                }
            }
            return None;
        }
    }
    assert(s@.subrange(first as int, i as int) =~= d);
    Some(value as u8)
}

/// Appending digits never makes the value smaller.
proof fn lemma_digits_grow(d: Seq<u8>, k: int)
    requires
        0 <= k <= d.len(),
        all_digits(d),
    ensures
        digits_value(d.subrange(0, k)) <= digits_value(d),
    decreases d.len() - k,
{
    if k < d.len() {
        lemma_digits_grow(d, k + 1);
        let next = d.subrange(0, k + 1);
        assert(next.drop_last() =~= d.subrange(0, k));
        assert(is_digit(next.last()));
        assert(digits_value(next) >= digits_value(d.subrange(0, k))) by {
            lemma_digits_nonneg(d.subrange(0, k));
        }
    } else {
        assert(d.subrange(0, k) =~= d);
    }
}

proof fn lemma_digits_nonneg(d: Seq<u8>)
    requires
        forall|i: int| 0 <= i < d.len() ==> is_digit(#[trigger] d[i]),
    ensures
        digits_value(d) >= 0,
    decreases d.len(),
{
    if d.len() > 0 {
        lemma_digits_nonneg(d.drop_last());
    }
}

/// Reads an IPv4 address written as four decimal bytes separated by dots.
/// Gives nothing where there are more or fewer parts or a part is not a
/// decimal byte.
pub fn parse_ip(mqtt_host_ip: &str) -> (r: Option<(u8, u8, u8, u8)>)
    ensures
        r == ip_of(mqtt_host_ip.spec_bytes()),
{
    let s = mqtt_host_ip.as_bytes();
    let mut starts: Vec<usize> = Vec::new();
    let mut ends: Vec<usize> = Vec::new();
    let ghost mut done: Seq<Seq<u8>> = Seq::empty();
    let mut start: usize = 0;
    let mut i: usize = 0;
    assert(s@.subrange(0, 0) =~= Seq::<u8>::empty());
    assert(split_dots(Seq::<u8>::empty()) =~= done.push(s@.subrange(0, 0)));
    while i < s.len()
        invariant
            start <= i <= s@.len(),
            starts@.len() == done.len(),
            ends@.len() == done.len(),
            forall|k: int| 0 <= k < done.len() ==> #[trigger] starts@[k] <= ends@[k],
            forall|k: int| 0 <= k < done.len() ==> #[trigger] ends@[k] <= s@.len(),
            forall|k: int|
                0 <= k < done.len() ==> #[trigger] done[k] == s@.subrange(
                    starts@[k] as int,
                    ends@[k] as int,
                ),
            split_dots(s@.subrange(0, i as int)) == done.push(s@.subrange(start as int, i as int)),
        decreases s@.len() - i,
    {
        let ghost before = s@.subrange(0, i as int);
        assert(s@.subrange(0, i + 1).drop_last() =~= before);
        if s[i] == DOT {
            starts.push(start);
            ends.push(i);
            proof {
                let old_done = done;
                done = done.push(s@.subrange(start as int, i as int));
                assert forall|k: int| 0 <= k < done.len() implies #[trigger] done[k] == s@.subrange(
                    starts@[k] as int,
                    ends@[k] as int,
                ) by {
                    if k < old_done.len() {
                        assert(done[k] == old_done[k]);
                    }
                }
                assert(s@.subrange(i + 1, i + 1) =~= Seq::<u8>::empty());
                assert(split_dots(s@.subrange(0, i + 1)) =~= done.push(s@.subrange(i + 1, i + 1)));
            }
            start = i + 1;
        } else {
            proof {
                let init = split_dots(before);
                assert(s@.subrange(start as int, i + 1) =~= s@.subrange(start as int, i as int).push(s@[i as int]));
                assert(init.update(init.len() - 1, init.last().push(s@[i as int])) =~= done.push(
                    s@.subrange(start as int, i + 1),
                ));
            }
        }
        i = i + 1;
    }
    starts.push(start);
    ends.push(s.len());
    proof {
        done = done.push(s@.subrange(start as int, i as int));
        assert(s@.subrange(0, s@.len() as int) =~= s@);
    }
    if starts.len() != 4 {
        return None;
    }
    let a = parse_decimal_u8(s, starts[0], ends[0]);
    let b = parse_decimal_u8(s, starts[1], ends[1]);
    let c = parse_decimal_u8(s, starts[2], ends[2]);
    let d = parse_decimal_u8(s, starts[3], ends[3]);
    match (a, b, c, d) {
        (Some(a), Some(b), Some(c), Some(d)) => Some((a, b, c, d)),
        _ => None,
    }
}

} // verus!
