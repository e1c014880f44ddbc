//! The data exchanged by tools, the CLI and delivery sinks: requests,
//! acknowledgements, delivery statuses and the stored event record.

use vstd::prelude::*;
use vstd::string::StrSliceExecFns;
use vstd::string::StringExecFns;

use crate::text::{opt_text, push_char, trim_text, trimmed};

verus! {

/// A configured channel as shown to clients.
#[derive(Debug, PartialEq, Eq)]
pub struct ChannelInfo {
    pub name: String,
    pub description: String,
}

/// The channel listing: the default channel and every configured channel in order.
#[derive(Debug, PartialEq, Eq)]
pub struct ListChannelsOutput {
    pub default_channel: String,
    pub channels: Vec<ChannelInfo>,
}

/// Input of the `vent` tool when several channels exist.
#[derive(Debug, PartialEq, Eq)]
pub struct VentInput {
    pub message: String,
    pub channel: Option<String>,
}

/// Input of the `vent` tool when only the default channel exists.
#[derive(Debug, PartialEq, Eq)]
pub struct VentDefaultChannelInput {
    pub message: String,
}

/// The acknowledgement returned for a vent.
#[derive(Debug, PartialEq, Eq)]
pub struct VentOutput {
    pub ok: bool,
    /// Short trace id for the accepted event, not a deduplication key.
    pub event_id: String,
    pub channel: String,
    pub error: Option<String>,
}

/// The outcome of delivering one event to one sink.
#[derive(Debug, PartialEq, Eq)]
pub struct SinkDeliveryStatus {
    pub sink: String,
    pub ok: bool,
    pub message: Option<String>,
}

/// A short trace id: eight characters from `0-9A-Za-z`.
#[derive(Debug, PartialEq, Eq)]
pub struct EventId(String);

impl View for EventId {
    type V = Seq<char>;

    closed spec fn view(&self) -> Seq<char> {
        self.0@
    }
}

/// The stored and delivered event record. `timestamp` is RFC 3339 text in UTC.
#[derive(Debug, PartialEq, Eq)]
pub struct VentEvent {
    pub id: EventId,
    pub timestamp: String,
    pub channel: String,
    pub message: String,
    pub project: String,
}

/// Number of characters in an event id.
pub const EVENT_ID_LEN: usize = 8;

/// The `d`-th character of `0-9A-Za-z`, for `d < 62`.
pub open spec fn base62_char(d: nat) -> char {
    if d < 10 {
        (48 + d) as char
    } else if d < 36 {
        (65 + d - 10) as char
    } else {
        (97 + d - 36) as char
    }
}

/// The `n` base-62 digits of `v`, least significant first.
pub open spec fn base62_digits(v: nat, n: nat) -> Seq<char>
    decreases n,
{
    if n == 0 {
        Seq::empty()
    } else {
        seq![base62_char(v % 62)] + base62_digits(v / 62, (n - 1) as nat)
    }
}

/// An ASCII letter or digit.
pub open spec fn is_ascii_alphanumeric(c: char) -> bool {
    ('0' <= c && c <= '9') || ('A' <= c && c <= 'Z') || ('a' <= c && c <= 'z')
}

/// A well-formed event id.
pub open spec fn is_event_id(s: Seq<char>) -> bool {
    &&& s.len() == EVENT_ID_LEN
    &&& forall|i: int| 0 <= i < s.len() ==> #[trigger] is_ascii_alphanumeric(s[i])
}

/// Every id made from a random value is eight ASCII letters or digits.
pub proof fn lemma_base62_digits_are_ids(v: nat, n: nat)
    ensures
        base62_digits(v, n).len() == n,
        forall|i: int|
            0 <= i < n ==> #[trigger] is_ascii_alphanumeric(base62_digits(v, n)[i]),
    decreases n,
{
    if n > 0 {
        lemma_base62_digits_are_ids(v / 62, (n - 1) as nat);
        let head = seq![base62_char(v % 62)];
        let tail = base62_digits(v / 62, (n - 1) as nat);
        assert forall|i: int| 0 <= i < n implies #[trigger] is_ascii_alphanumeric(
            base62_digits(v, n)[i],
        ) by {
            if i == 0 {
                assert(base62_digits(v, n)[i] == base62_char(v % 62));
            } else {
                assert(base62_digits(v, n)[i] == tail[i - 1]);
            }
        }
    }
}

/// The id text for a 128-bit value: its eight lowest base-62 digits, least significant first.
pub fn short_event_id(value: u128) -> (r: String)
    ensures
        r@ == base62_digits(value as nat, EVENT_ID_LEN as nat),
{
    let mut v: u128 = value;
    let mut id = String::new();
    let mut i: usize = 0;
    while i < EVENT_ID_LEN
        invariant
            i <= EVENT_ID_LEN,
            id@ + base62_digits(v as nat, (EVENT_ID_LEN - i) as nat) == base62_digits(
                value as nat,
                EVENT_ID_LEN as nat,
            ),
        decreases EVENT_ID_LEN - i,
    {
        let d: u8 = (v % 62) as u8;
        let c: char = if d < 10 {
            (48u8 + d) as char
        } else if d < 36 {
            (55u8 + d) as char
        } else {
            (61u8 + d) as char
        };
        assert(c == base62_char((v % 62) as nat));
        let ghost rest = base62_digits(v as nat, (EVENT_ID_LEN - i) as nat);
        assert(rest == seq![c] + base62_digits((v / 62) as nat, (EVENT_ID_LEN - i - 1) as nat));
        push_char(&mut id, c);
        v = v / 62;
        assert(id@ + base62_digits(v as nat, (EVENT_ID_LEN - (i + 1)) as nat) =~= base62_digits(
            value as nat,
            EVENT_ID_LEN as nat,
        ));
        i = i + 1;
    }
    assert(id@ + Seq::<char>::empty() =~= id@);
    id
}

/// A 128-bit value with the version nibble 4 and the variant bits `10` of a
/// random (version-4) UUID.
pub open spec fn is_uuid_v4_value(v: u128) -> bool {
    v & 0x0000_0000_0000_f000_c000_0000_0000_0000u128 == 0x0000_0000_0000_4000_8000_0000_0000_0000u128
}

/// `uuid::Uuid::new_v4().as_u128()`: a random value whose version nibble is 4
/// and whose variant bits are `10`.
#[verifier::external_body]
fn random_uuid_value() -> (r: u128)
    ensures
        r & 0x0000_0000_0000_f000_c000_0000_0000_0000u128
            == 0x0000_0000_0000_4000_8000_0000_0000_0000u128,
{
    uuid::Uuid::new_v4().as_u128()
}

/// `chrono::Utc::now()` written as RFC 3339 with `Z` and automatic fractional
/// seconds, the form chrono's serializer writes for a UTC time.
#[verifier::external_body]
fn current_timestamp() -> (r: String)
    ensures
        r@.len() > 0,
        r@.last() == 'Z',
{
    chrono::Utc::now().to_rfc3339_opts(chrono::SecondsFormat::AutoSi, true)
}

impl EventId {
    /// The id derived from a 128-bit value.
    pub fn from_value(value: u128) -> (r: EventId)
        ensures
            r@ == base62_digits(value as nat, EVENT_ID_LEN as nat),
            is_event_id(r@),
    {
        proof {
            lemma_base62_digits_are_ids(value as nat, EVENT_ID_LEN as nat);
        }
        EventId(short_event_id(value))
    }

    /// A fresh id from a random version-4 UUID.
    pub fn new_random() -> (r: EventId)
        ensures
            is_event_id(r@),
            exists|v: u128| #[trigger] is_uuid_v4_value(v) && r@ == base62_digits(v as nat, EVENT_ID_LEN as nat),
    {
        let v = random_uuid_value();
        let r = EventId::from_value(v);
        assert(is_uuid_v4_value(v));
        r
    }

    /// The id text.
    pub fn as_str(&self) -> (r: &str)
        ensures
            r@ == self@,
    {
        self.0.as_str()
    }
}

impl VentEvent {
    /// An event from an id value, a timestamp and the already-validated fields.
    pub fn from_parts(
        id_value: u128,
        timestamp: String,
        channel: String,
        message: String,
        project: String,
    ) -> (r: VentEvent)
        ensures
            r.id@ == base62_digits(id_value as nat, EVENT_ID_LEN as nat),
            is_event_id(r.id@),
            r.timestamp@ == timestamp@,
            r.channel@ == channel@,
            r.message@ == message@,
            r.project@ == project@,
    {
        VentEvent { id: EventId::from_value(id_value), timestamp, channel, message, project }
    }

    /// Creates a timestamped event with a fresh id; every sink receives this one record.
    pub fn new(channel: String, message: String, project: String) -> (r: VentEvent)
        ensures
            is_event_id(r.id@),
            r.timestamp@.len() > 0,
            r.timestamp@.last() == 'Z',
            r.channel@ == channel@,
            r.message@ == message@,
            r.project@ == project@,
    {
        VentEvent {
            id: EventId::new_random(),
            timestamp: current_timestamp(),
            channel,
            message,
            project,
        }
    }
}

/// Index of the first failed status at or after `i`.
pub open spec fn first_failure(statuses: Seq<SinkDeliveryStatus>, i: int) -> Option<int>
    decreases statuses.len() - i,
{
    if i < 0 || i >= statuses.len() {
        None
    } else if !statuses[i].ok {
        Some(i)
    } else {
        first_failure(statuses, i + 1)
    }
}

/// The error text a failed status reports: its message, or `"<sink> failed"`.
pub open spec fn failure_text(s: SinkDeliveryStatus) -> Seq<char> {
    match s.message {
        Some(m) => m@,
        None => s.sink@ + " failed"@,
    }
}

/// The error of the first failed status.
pub open spec fn first_error(statuses: Seq<SinkDeliveryStatus>) -> Option<Seq<char>> {
    match first_failure(statuses, 0) {
        Some(i) => Some(failure_text(statuses[i])),
        None => None,
    }
}

/// A status list has a failure exactly when not every status is ok.
pub proof fn lemma_first_failure_iff_not_all_ok(statuses: Seq<SinkDeliveryStatus>, i: int)
    requires
        0 <= i <= statuses.len(),
    ensures
        first_failure(statuses, i) is None <==> forall|k: int|
            i <= k < statuses.len() ==> #[trigger] statuses[k].ok,
        first_failure(statuses, i) matches Some(k) ==> i <= k < statuses.len() && !statuses[k].ok
            && forall|m: int| i <= m < k ==> #[trigger] statuses[m].ok,
    decreases statuses.len() - i,
{
    if i < statuses.len() {
        lemma_first_failure_iff_not_all_ok(statuses, i + 1);
    }
}

/// The error message of the first failed delivery, if any.
pub fn first_delivery_error(statuses: &[SinkDeliveryStatus]) -> (r: Option<String>)
    ensures
        opt_text(r) == first_error(statuses@),
{
    let mut i: usize = 0;
    while i < statuses.len()
        invariant
            i <= statuses@.len(),
            first_failure(statuses@, 0) == first_failure(statuses@, i as int),
        decreases statuses@.len() - i,
    {
        let status = &statuses[i];
        if !status.ok {
            let text = match &status.message {
                Some(message) => message.clone(),
                None => {
                    let mut t = status.sink.clone();
                    t.append(" failed");
                    t
                },
            };
            return Some(text);
        }
        i = i + 1;
    }
    None
}

/// The project label for a working-directory name: the name, or `unknown`
/// when there is none or it is blank. Only this last path component is ever recorded.
pub fn project_label(dir_name: Option<String>) -> (r: String)
    ensures
        r@ == match dir_name {
            Some(n) => if trimmed(n@).len() > 0 {
                n@
            } else {
                "unknown"@
            },
            None => "unknown"@,
        },
{
    match dir_name {
        Some(name) => {
            let t = trim_text(name.as_str());
            if t.as_str().unicode_len() > 0 {
                name
            } else {
                "unknown".to_owned()
            }
        },
        None => "unknown".to_owned(),
    }
}

} // verus!
