//! Keys of the store: user key bytes together with a timestamp, a record
//! type and an expiry time.
use vstd::prelude::*;
use bytes::Bytes;
use std::cmp::Ordering;
use crate::key_order::{compare_bytes, bytes_equal, key_order, key_less, key_greater, key_same};
use crate::buffer::{bytes_contents, bytes_empty, bytes_from_vec, bytes_as_slice, bytes_clone};

verus! {

pub const TS_ENABLED: bool = true;

pub const TS_DEFAULT: u64 = 0;

pub const TS_MAX: u64 = 0xffff_ffff_ffff_ffffu64;

pub const TS_MIN: u64 = 0;

pub const TS_RANGE_BEGIN: u64 = 0xffff_ffff_ffff_ffffu64;

pub const TS_RANGE_END: u64 = 0;

/// An expiry time of zero means that the record never expires.
pub const TTL_DEFAULT: u64 = 0;

/// The kind of a record: a tombstone or a value.
#[derive(Debug, Copy, Clone, PartialEq, Eq, Structural)]
pub enum Type {
    DELETE,
    PUT,
}

impl Type {
    /// The byte a key type is stored as.
    pub open spec fn spec_to_u8(self) -> u8 {
        match self {
            Type::DELETE => 0u8,
            Type::PUT => 1u8,
        }
    }

    /// The key type a stored byte is read back as: zero is a tombstone,
    /// every other byte a value.
    pub open spec fn spec_from_u8(b: u8) -> Type {
        if b == 0 {
            Type::DELETE
        } else {
            Type::PUT
        }
    }

    /// Reading back the byte a key type is stored as gives that key type.
    pub proof fn lemma_byte_roundtrip(t: Type)
        ensures
            Type::spec_from_u8(t.spec_to_u8()) == t,
    {
    }
}

impl From<Type> for u8 {
    fn from(value: Type) -> (r: u8) {
        match value {
            Type::DELETE => 0,
            Type::PUT => 1,
        }
    }
}

impl vstd::std_specs::convert::FromSpecImpl<Type> for u8 {
    open spec fn obeys_from_spec() -> bool {
        true
    }

    open spec fn from_spec(v: Type) -> u8 {
        v.spec_to_u8()
    }
}

impl TryFrom<u8> for Type {
    type Error = &'static str;

    fn try_from(value: u8) -> (r: Result<Type, &'static str>) {
        match value {
            0 => Ok(Type::DELETE),
            _ => Ok(Type::PUT),
        }
    }
}

impl vstd::std_specs::convert::TryFromSpecImpl<u8> for Type {
    open spec fn obeys_try_from_spec() -> bool {
        true
    }

    open spec fn try_from_spec(v: u8) -> Result<Type, &'static str> {
        Ok(Type::spec_from_u8(v))
    }
}

/// The byte storage a key can be built on.
pub trait KeyData {
    /// The bytes held.
    spec fn data_view(&self) -> Seq<u8>;

    /// Lends the bytes held.
    fn data_slice(&self) -> (r: &[u8])
        ensures
            r@ == self.data_view(),
    ;
}

impl KeyData for Vec<u8> {
    open spec fn data_view(&self) -> Seq<u8> {
        self@
    }

    fn data_slice(&self) -> (r: &[u8]) {
        self.as_slice()
    }
}

impl<'a> KeyData for &'a [u8] {
    open spec fn data_view(&self) -> Seq<u8> {
        (*self)@
    }

    fn data_slice(&self) -> (r: &[u8]) {
        *self
    }
}

impl KeyData for Bytes {
    open spec fn data_view(&self) -> Seq<u8> {
        bytes_contents(*self)
    }

    fn data_slice(&self) -> (r: &[u8]) {
        bytes_as_slice(self)
    }
}

/// The clock's current time, carried through opaquely.
#[verifier::external_type_specification]
#[verifier::external_body]
pub struct ExSystemTime(std::time::SystemTime);

/// The error of a clock reading before the Unix epoch.
#[verifier::external_type_specification]
#[verifier::external_body]
pub struct ExSystemTimeError(std::time::SystemTimeError);

/// Calls `SystemTime::now`; nothing is claimed of the reading.
#[verifier::external_body]
fn clock_now() -> (r: std::time::SystemTime) {
    std::time::SystemTime::now()
}

/// Calls `SystemTime::duration_since` with the Unix epoch; nothing is
/// claimed of the outcome, which depends on the clock.
#[verifier::external_body]
fn since_unix_epoch(t: std::time::SystemTime) -> (r: Result<std::time::Duration, std::time::SystemTimeError>) {
    t.duration_since(std::time::UNIX_EPOCH)
}

/// Calls `Duration::as_secs`, the whole seconds of a duration; nothing is
/// claimed of the result, the duration being opaque here.
#[verifier::external_body]
fn whole_seconds(d: &std::time::Duration) -> (r: u64) {
    d.as_secs()
}

/// The timestamp of a clock reading in whole seconds since the Unix epoch:
/// the reading itself, and zero for a clock earlier than the epoch.
pub open spec fn spec_timestamp_of(reading: Option<u64>) -> u64 {
    match reading {
        Some(s) => s,
        None => 0,
    }
}

/// The timestamp of a clock reading (whole seconds since the Unix epoch,
/// `None` before it): the reading itself, zero before the epoch.
pub fn timestamp_of(reading: Option<u64>) -> (r: u64)
    ensures
        r == spec_timestamp_of(reading),
{
    match reading {
        Some(s) => s,
        None => 0,
    }
}

/// The current time in whole seconds since the Unix epoch, as expiry times
/// are measured: `timestamp_of` the clock's reading, so zero when the clock
/// reads earlier than the epoch. The reading rests on the clock alone, so
/// nothing is stated of the result.
pub fn current_timestamp() -> (r: u64) {
    let reading = match since_unix_epoch(clock_now()) {
        Ok(d) => Some(whole_seconds(&d)),
        Err(_) => None,
    };
    timestamp_of(reading)
}

/// What a key is: its user bytes, its timestamp, its type and its expiry time.
pub struct KeyView {
    pub bytes: Seq<u8>,
    pub ts: u64,
    pub key_type: Type,
    pub ttl: u64,
}

/// A key: user key bytes, timestamp, record type and expiry time
/// (an absolute time in seconds; zero means no expiry).
#[derive(Debug, Clone, Copy)]
pub struct Key<T>(pub(crate) T, pub(crate) u64, pub(crate) Type, pub(crate) u64);

pub type KeySlice<'a> = Key<&'a [u8]>;

pub type KeyVec = Key<Vec<u8>>;

pub type KeyBytes = Key<Bytes>;

impl<T: KeyData> View for Key<T> {
    type V = KeyView;

    closed spec fn view(&self) -> KeyView {
        KeyView { bytes: self.0.data_view(), ts: self.1, key_type: self.2, ttl: self.3 }
    }
}

/// Whether a record with expiry time `ttl` has expired at `now`.
pub open spec fn spec_is_expired(ttl: u64, now: u64) -> bool {
    ttl != TTL_DEFAULT && now > ttl
}

/// The length of a key's encoding: its bytes, an 8-byte timestamp, a type
/// byte and an 8-byte expiry time.
pub open spec fn spec_raw_len(key_len: nat) -> nat {
    key_len + 17
}

impl<T: KeyData> Key<T> {
    pub fn into_inner(self) -> (r: T)
        ensures
            r.data_view() == self@.bytes,
    {
        self.0
    }

    pub fn for_testing_ts(self) -> (r: u64)
        ensures
            r == self@.ts,
    {
        self.1
    }

    pub fn key_type(&self) -> (r: Type)
        ensures
            r == self@.key_type,
    {
        self.2
    }

    pub fn ttl(&self) -> (r: u64)
        ensures
            r == self@.ttl,
    {
        self.3
    }

    pub fn is_expired(&self, current_time: u64) -> (r: bool)
        ensures
            r == spec_is_expired(self@.ttl, current_time),
    {
        self.3 != TTL_DEFAULT && current_time > self.3
    }
    pub fn key_len(&self) -> (r: usize)
        ensures
            r == self@.bytes.len(),
    {
        self.0.data_slice().len()
    }

    pub fn raw_len(&self) -> (r: usize)
        requires
            spec_raw_len(self@.bytes.len()) <= usize::MAX,
        ensures
            r == spec_raw_len(self@.bytes.len()),
    {
        self.0.data_slice().len() + 8 + 1 + 8
    }

    pub fn is_empty(&self) -> (r: bool)
        ensures
            r == (self@.bytes.len() == 0),
    {
        self.0.data_slice().len() == 0
    }
}

impl Key<Vec<u8>> {
    pub fn new() -> (r: Self)
        ensures
            r@ == (KeyView { bytes: Seq::empty(), ts: TS_DEFAULT, key_type: Type::PUT, ttl: TTL_DEFAULT }),
    {
        Key(Vec::new(), TS_DEFAULT, Type::PUT, TTL_DEFAULT)
    }

    pub fn from_bytes_with_all(key: Vec<u8>, ts: u64, key_type: Type, ttl: u64) -> (r: Self)
        ensures
            r@ == (KeyView { bytes: key@, ts, key_type, ttl }),
    {
        Key(key, ts, key_type, ttl)
    }

    pub fn from_vec_with_ttl(key: Vec<u8>, ttl: u64) -> (r: Self)
        ensures
            r@ == (KeyView { bytes: key@, ts: TS_DEFAULT, key_type: Type::PUT, ttl }),
    {
        Key(key, TS_DEFAULT, Type::PUT, ttl)
    }

    pub fn from_vec_with_ts_ttl(key: Vec<u8>, ts: u64, ttl: u64) -> (r: Self)
        ensures
            r@ == (KeyView { bytes: key@, ts, key_type: Type::PUT, ttl }),
    {
        Key(key, ts, Type::PUT, ttl)
    }

    pub fn from_vec_with_delete(key: Vec<u8>, key_type: Type) -> (r: Self)
        ensures
            r@ == (KeyView { bytes: key@, ts: TS_DEFAULT, key_type, ttl: TTL_DEFAULT }),
    {
        Key(key, TS_DEFAULT, key_type, TTL_DEFAULT)
    }

    /// Clears the key and sets its timestamp to zero.
    pub fn clear(&mut self)
        ensures
            final(self)@ == (KeyView { bytes: Seq::empty(), ts: TS_DEFAULT, ..old(self)@ }),
    {
        self.0.clear();
        self.1 = TS_DEFAULT;
    }

    /// Appends a slice to the end of the key.
    pub fn append(&mut self, data: &[u8])
        ensures
            final(self)@ == (KeyView { bytes: old(self)@.bytes + data@, ..old(self)@ }),
    {
        let mut i: usize = 0;
        while i < data.len()
            invariant
                0 <= i <= data.len(),
                self@ == (KeyView { bytes: old(self)@.bytes + data@.take(i as int), ..old(self)@ }),
            decreases data.len() - i,
        {
            self.0.push(data[i]);
            i = i + 1;
            assert(old(self)@.bytes + data@.take(i as int) =~= (old(self)@.bytes + data@.take(
                (i - 1) as int,
            )).push(data@[i - 1]));
        }
        assert(data@.take(data.len() as int) =~= data@);
    }

    pub fn set_ts(&mut self, ts: u64)
        ensures
            final(self)@ == (KeyView { ts, ..old(self)@ }),
    {
        self.1 = ts;
    }

    pub fn set_type(&mut self, key_type: Type)
        ensures
            final(self)@ == (KeyView { key_type, ..old(self)@ }),
    {
        self.2 = key_type;
    }

    pub fn set_ttl(&mut self, ttl: u64)
        ensures
            final(self)@ == (KeyView { ttl, ..old(self)@ }),
    {
        self.3 = ttl;
    }

    /// Sets the key from a slice without re-allocating.
    pub fn set_from_slice(&mut self, key_slice: KeySlice)
        ensures
            final(self)@ == key_slice@,
    {
        self.0.clear();
        self.append(key_slice.0);
        self.1 = key_slice.1;
        self.2 = key_slice.2;
        self.3 = key_slice.3;
    }

    pub fn as_key_slice(&self) -> (r: KeySlice<'_>)
        ensures
            r@ == self@,
    {
        Key(self.0.as_slice(), self.1, self.2, self.3)
    }

    pub fn into_key_bytes(self) -> (r: KeyBytes)
        ensures
            r@ == self@,
    {
        let Key(data, ts, key_type, ttl) = self;
        Key(bytes_from_vec(data), ts, key_type, ttl)
    }

    pub fn key_ref(&self) -> (r: &[u8])
        ensures
            r@ == self@.bytes,
    {
        self.0.as_slice()
    }

    pub fn ts(&self) -> (r: u64)
        ensures
            r == self@.ts,
    {
        self.1
    }

    pub fn for_testing_key_ref(&self) -> (r: &[u8])
        ensures
            r@ == self@.bytes,
    {
        self.0.as_slice()
    }

    pub fn for_testing_from_vec_no_ts(key: Vec<u8>) -> (r: Self)
        ensures
            r@ == (KeyView { bytes: key@, ts: TS_DEFAULT, key_type: Type::PUT, ttl: TTL_DEFAULT }),
    {
        Key(key, TS_DEFAULT, Type::PUT, TTL_DEFAULT)
    }
}

impl Key<Bytes> {
    /// A copy of the key that shares its buffer.
    pub fn clone_key(&self) -> (r: KeyBytes)
        ensures
            r@ == self@,
    {
        Key(bytes_clone(&self.0), self.1, self.2, self.3)
    }

    pub fn new() -> (r: Self)
        ensures
            r@ == (KeyView { bytes: Seq::empty(), ts: TS_DEFAULT, key_type: Type::PUT, ttl: TTL_DEFAULT }),
    {
        Key(bytes_empty(), TS_DEFAULT, Type::PUT, TTL_DEFAULT)
    }

    pub fn as_key_slice(&self) -> (r: KeySlice<'_>)
        ensures
            r@ == self@,
    {
        Key(bytes_as_slice(&self.0), self.1, self.2, self.3)
    }

    /// Creates a `KeyBytes` from a `Bytes` and a timestamp.
    pub fn from_bytes_with_ts(bytes: Bytes, ts: u64) -> (r: KeyBytes)
        ensures
            r@ == (KeyView { bytes: bytes_contents(bytes), ts, key_type: Type::PUT, ttl: TTL_DEFAULT }),
    {
        Key(bytes, ts, Type::PUT, TTL_DEFAULT)
    }

    /// Creates a `KeyBytes` from a `Bytes`, a timestamp, a type and an expiry time.
    pub fn from_bytes_with_all(bytes: Bytes, ts: u64, key_type: Type, ttl: u64) -> (r: KeyBytes)
        ensures
            r@ == (KeyView { bytes: bytes_contents(bytes), ts, key_type, ttl }),
    {
        Key(bytes, ts, key_type, ttl)
    }

    pub fn key_ref(&self) -> (r: &[u8])
        ensures
            r@ == self@.bytes,
    {
        bytes_as_slice(&self.0)
    }

    pub fn ts(&self) -> (r: u64)
        ensures
            r == self@.ts,
    {
        self.1
    }

    pub fn set_type(&mut self, key_type: Type)
        ensures
            final(self)@ == (KeyView { key_type, ..old(self)@ }),
    {
        self.2 = key_type;
    }

    pub fn set_ttl(&mut self, ttl: u64)
        ensures
            final(self)@ == (KeyView { ttl, ..old(self)@ }),
    {
        self.3 = ttl;
    }

    pub fn for_testing_from_bytes_no_ts(bytes: Bytes) -> (r: KeyBytes)
        ensures
            r@ == (KeyView { bytes: bytes_contents(bytes), ts: TS_DEFAULT, key_type: Type::PUT, ttl: TTL_DEFAULT }),
    {
        Key(bytes, TS_DEFAULT, Type::PUT, TTL_DEFAULT)
    }

    pub fn for_testing_key_ref(&self) -> (r: &[u8])
        ensures
            r@ == self@.bytes,
    {
        bytes_as_slice(&self.0)
    }
}

impl<'a> Key<&'a [u8]> {
    pub fn to_key_vec(self) -> (r: KeyVec)
        ensures
            r@ == self@,
    {
        Key(vstd::slice::slice_to_vec(self.0), self.1, self.2, self.3)
    }

    /// Creates a key slice from a slice and a timestamp.
    pub fn from_slice(slice: &'a [u8], ts: u64) -> (r: Self)
        ensures
            r@ == (KeyView { bytes: slice@, ts, key_type: Type::PUT, ttl: TTL_DEFAULT }),
    {
        Key(slice, ts, Type::PUT, TTL_DEFAULT)
    }

    pub fn from_slice_with_type(slice: &'a [u8], ts: u64, key_type: Type) -> (r: Self)
        ensures
            r@ == (KeyView { bytes: slice@, ts, key_type, ttl: TTL_DEFAULT }),
    {
        Key(slice, ts, key_type, TTL_DEFAULT)
    }

    pub fn from_slice_with_ttl(slice: &'a [u8], ts: u64, ttl: u64) -> (r: Self)
        ensures
            r@ == (KeyView { bytes: slice@, ts, key_type: Type::PUT, ttl }),
    {
        Key(slice, ts, Type::PUT, ttl)
    }

    pub fn from_slice_with_type_and_ttl(slice: &'a [u8], ts: u64, key_type: Type, ttl: u64) -> (r: Self)
        ensures
            r@ == (KeyView { bytes: slice@, ts, key_type, ttl }),
    {
        Key(slice, ts, key_type, ttl)
    }

    pub fn key_ref(self) -> (r: &'a [u8])
        ensures
            r@ == self@.bytes,
    {
        self.0
    }

    pub fn ts(&self) -> (r: u64)
        ensures
            r == self@.ts,
    {
        self.1
    }

    pub fn for_testing_key_ref(self) -> (r: &'a [u8])
        ensures
            r@ == self@.bytes,
    {
        self.0
    }

    pub fn for_testing_from_slice_no_ts_no_ttl(slice: &'a [u8]) -> (r: Self)
        ensures
            r@ == (KeyView { bytes: slice@, ts: TS_DEFAULT, key_type: Type::PUT, ttl: TTL_DEFAULT }),
    {
        Key(slice, TS_DEFAULT, Type::PUT, TTL_DEFAULT)
    }

    pub fn for_testing_from_slice_with_ts(slice: &'a [u8], ts: u64) -> (r: Self)
        ensures
            r@ == (KeyView { bytes: slice@, ts, key_type: Type::PUT, ttl: TTL_DEFAULT }),
    {
        Key(slice, ts, Type::PUT, TTL_DEFAULT)
    }
}

impl Default for Key<Vec<u8>> {
    fn default() -> (r: Self)
        ensures
            r@ == (KeyView { bytes: Seq::empty(), ts: TS_DEFAULT, key_type: Type::PUT, ttl: TTL_DEFAULT }),
    {
        Key(Vec::new(), TS_DEFAULT, Type::PUT, TTL_DEFAULT)
    }
}

impl Default for Key<Bytes> {
    fn default() -> (r: Self)
        ensures
            r@ == (KeyView { bytes: Seq::empty(), ts: TS_DEFAULT, key_type: Type::PUT, ttl: TTL_DEFAULT }),
    {
        Key(bytes_empty(), TS_DEFAULT, Type::PUT, TTL_DEFAULT)
    }
}

/// The integer a machine index stands for.
pub open spec fn int_of(i: usize) -> int {
    i as int
}

/// The length of the longest common prefix of two byte slices.
pub fn common_prefix_len(a: &[u8], b: &[u8]) -> (r: usize)
    ensures
        r <= a.len(),
        r <= b.len(),
        a@.take(r as int) == b@.take(r as int),
        r < a.len() && r < b.len() ==> a@[r as int] != b@[r as int],
{
    let mut i: usize = 0;
    while i < a.len() && i < b.len() && a[i] == b[i]
        invariant
            0 <= i <= a.len(),
            i <= b.len(),
            a@.take(i as int) == b@.take(i as int),
        decreases a.len() - i,
    {
        assert(a@.take(i + 1) =~= a@.take(i as int).push(a@[i as int]));
        assert(b@.take(i + 1) =~= b@.take(i as int).push(b@[i as int]));
        i = i + 1;
    }
    i
}

impl<T: KeyData> Key<T> {
    /// Compares two keys: by user key bytes, then newer timestamp first.
    pub fn compare(&self, other: &Self) -> (r: Ordering)
        ensures
            r == key_order(self@, other@),
    {
        match compare_bytes(self.0.data_slice(), other.0.data_slice()) {
            Ordering::Equal => if self.1 > other.1 {
                Ordering::Less
            } else if self.1 < other.1 {
                Ordering::Greater
            } else {
                Ordering::Equal
            },
            o => o,
        }
    }
}

/// Whether key `a` sorts before key `b`.
pub fn key_lt<T: KeyData>(a: &Key<T>, b: &Key<T>) -> (r: bool)
    ensures
        r == key_less(a@, b@),
{
    match a.compare(b) {
        Ordering::Less => true,
        _ => false,
    }
}

/// Whether keys `a` and `b` sort the same.
pub fn key_ties<T: KeyData>(a: &Key<T>, b: &Key<T>) -> (r: bool)
    ensures
        r == key_same(a@, b@),
{
    match a.compare(b) {
        Ordering::Equal => true,
        _ => false,
    }
}

/// Whether key `a` sorts after key `b`.
pub fn key_gt<T: KeyData>(a: &Key<T>, b: &Key<T>) -> (r: bool)
    ensures
        r == key_greater(a@, b@),
{
    match a.compare(b) {
        Ordering::Greater => true,
        _ => false,
    }
}

impl<T: KeyData> PartialEq for Key<T> {
    fn eq(&self, other: &Self) -> (r: bool) {
        bytes_equal(self.0.data_slice(), other.0.data_slice()) && self.1 == other.1 && self.2
            == other.2 && self.3 == other.3
    }
}

impl<T: KeyData> vstd::std_specs::cmp::PartialEqSpecImpl for Key<T> {
    open spec fn obeys_eq_spec() -> bool {
        true
    }

    open spec fn eq_spec(&self, other: &Self) -> bool {
        self@ == other@
    }
}

impl<T: KeyData> Eq for Key<T> {
}

impl<T: KeyData> PartialOrd for Key<T> {
    fn partial_cmp(&self, other: &Self) -> (r: Option<Ordering>) {
        Some(self.compare(other))
    }
}

impl<T: KeyData> vstd::std_specs::cmp::PartialOrdSpecImpl for Key<T> {
    open spec fn obeys_partial_cmp_spec() -> bool {
        true
    }

    open spec fn partial_cmp_spec(&self, other: &Self) -> Option<Ordering> {
        Some(key_order(self@, other@))
    }
}

} // verus!
