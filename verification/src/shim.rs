//! Trusted boundary to the outside crates.
//!
//! Everything verified in this library reaches prometheus, maxminddb,
//! base64, time and std's UTF-8 decoding only through the items in this
//! module. Each item's contract states no more than the outside source
//! plainly shows.

use vstd::prelude::*;

verus! {

#[verifier::external_type_specification]
#[verifier::external_body]
pub struct ExRegistry(prometheus::Registry);

#[verifier::external_type_specification]
#[verifier::external_body]
pub struct ExPromError(prometheus::Error);

#[verifier::external_type_specification]
#[verifier::external_body]
pub struct ExMaxMindError(maxminddb::MaxMindDBError);

/// A loaded GeoIP country database: a `maxminddb::Reader`, which Verus
/// cannot declare because of the trait bound on its type parameter.
/// The embedding program opens the database itself — file reading and
/// maxminddb's own metadata parsing, which panics on some malformed
/// buffers, stay outside the verified surface — and wraps the reader
/// in this opaque holder.
#[verifier::external_body]
pub struct GeoReader {
    pub inner: maxminddb::Reader<Vec<u8>>,
}

/// Whether a loaded database is structurally sound, so that lookups
/// stay within the buffer. `Reader::from_source` checks too little to
/// establish this — plausible metadata over a truncated tree passes it,
/// and a later lookup would index out of bounds — so soundness of the
/// configured database file is assumed, never proved.
pub uninterp spec fn geo_wf(r: GeoReader) -> bool;

/// The country code a sound database yields for an IP text: a function
/// of the loaded bytes and the queried address alone.
pub uninterp spec fn geo_country(r: GeoReader, ip: Seq<u8>) -> Seq<char>;

impl GeoReader {
    /// Relies on `maxminddb::Reader::lookup` for a `geoip2::Country`
    /// record, with std's IP-address parsing to build its argument: the
    /// ISO country code, or the empty string when the bytes are no IP
    /// address, the lookup fails, or the record carries no code. The
    /// lookup walks the buffer with unchecked indexing, so it is called
    /// only on a database assumed sound; on one, the result depends on
    /// the loaded bytes and the IP text alone.
    #[verifier::external_body]
    pub(crate) fn lookup_country(&self, ip: &Vec<u8>) -> (c: String)
        requires
            geo_wf(*self),
        ensures
            geo_wf(*self) ==> c@ == geo_country(*self, ip@),
    {
        match String::from_utf8_lossy(ip).parse() {
            Ok(addr) => match self.inner.lookup::<maxminddb::geoip2::Country>(addr) {
                Ok(rec) => rec.country.and_then(|c| c.iso_code).map(|s| s.to_string())
                    .unwrap_or_default(),
                Err(_) => String::new(),
            },
            Err(_) => String::new(),
        }
    }
}

/// The characters that lossy UTF-8 decoding yields for a byte string.
pub uninterp spec fn lossy_text(b: Seq<u8>) -> Seq<char>;

/// Whether the standard base64 alphabet accepts a byte string.
pub uninterp spec fn base64_accepts(s: Seq<u8>) -> bool;

/// Relies on `String::from_utf8_lossy`: the characters depend on the
/// bytes alone, and ASCII bytes decode to themselves.
#[verifier::external_body]
pub(crate) fn to_text(b: &Vec<u8>) -> (r: String)
    ensures
        r@ == lossy_text(b@),
        (forall|i: int| 0 <= i < b@.len() ==> b@[i] < 128) ==> r@ == b@.map_values(
            |x: u8| x as char,
        ),
{
    String::from_utf8_lossy(b).into_owned()
}

/// Relies on `base64::decode`: whether decoding succeeds depends on the
/// input bytes alone.
#[verifier::external_body]
pub(crate) fn base64_decodes(s: &Vec<u8>) -> (r: bool)
    ensures
        r == base64_accepts(s@),
{
    base64::decode(s).is_ok()
}

/// A counter family of the metrics registry: a prometheus
/// `IntCounterVec`, which Verus cannot declare because its type argument
/// is not publicly nameable. It is modelled as a map from concatenated
/// label text to values, plus its fixed name and variable label names.
#[verifier::external_body]
pub struct CounterVec {
    inner: prometheus::IntCounterVec,
}

/// A gauge family of the metrics registry: a prometheus `IntGaugeVec`,
/// held and modelled the same way as [`CounterVec`].
#[verifier::external_body]
pub struct GaugeVec {
    inner: prometheus::IntGaugeVec,
}

/// The values a counter family holds, keyed as [`key_of`] says. That
/// the 64-bit label hash of two distinct keys never collides remains
/// an idealization of the inner map.
pub uninterp spec fn counter_values(c: CounterVec) -> Map<Seq<char>, int>;

/// The name a counter family was declared with.
pub uninterp spec fn counter_name(c: CounterVec) -> Seq<char>;

/// The variable label names a counter family was declared with.
pub uninterp spec fn counter_labels(c: CounterVec) -> Seq<Seq<char>>;

/// The values a gauge family holds, keyed as [`key_of`] says, with the
/// same hash idealization as [`counter_values`].
pub uninterp spec fn gauge_values(g: GaugeVec) -> Map<Seq<char>, int>;

/// The name a gauge family was declared with.
pub uninterp spec fn gauge_name(g: GaugeVec) -> Seq<char>;

/// The variable label names a gauge family was declared with.
pub uninterp spec fn gauge_labels(g: GaugeVec) -> Seq<Seq<char>>;

/// Value of a label combination, an unpopulated one reading as zero,
/// which is what prometheus reports for a fresh combination.
pub open spec fn at(m: Map<Seq<char>, int>, k: Seq<char>) -> int {
    if m.contains_key(k) {
        m[k]
    } else {
        0
    }
}

/// The key a list of label values forms: the values' text written back
/// to back. prometheus addresses a family's children by a hash of
/// exactly this separator-free byte stream, so two lists with one
/// concatenation share one child, and the model keys by the
/// concatenation to make that sharing visible.
pub open spec fn key_of(labels: Seq<String>) -> Seq<char>
    decreases labels.len(),
{
    if labels.len() == 0 {
        Seq::empty()
    } else {
        key_of(labels.drop_last()) + labels.last()@
    }
}

impl CounterVec {
    /// Relies on prometheus's `IntCounterVec::new`: a fresh family has
    /// the given variable label names and no populated combination.
    #[verifier::external_body]
    pub(crate) fn new(name: &str, help: &str, labels: &Vec<&str>) -> (r: Result<
        CounterVec,
        prometheus::Error,
    >)
        ensures
            match r {
                Ok(c) => counter_labels(c) == labels@.map_values(|s: &str| s@)
                    && counter_values(c) == Map::<Seq<char>, int>::empty() && counter_name(c)
                    == name@,
                Err(_) => true,
            },
    {
        let inner = prometheus::IntCounterVec::new(prometheus::Opts::new(name, help), labels)?;
        Ok(CounterVec { inner })
    }

    /// Relies on `Registry::register`: adds the family's collector to the
    /// registry; the family itself is untouched.
    #[verifier::external_body]
    pub(crate) fn register(&self, r: &prometheus::Registry) -> (res: Result<(), prometheus::Error>) {
        r.register(Box::new(self.inner.clone()))
    }

    /// Relies on `with_label_values` and `get`: the current value of
    /// exactly that label combination. `with_label_values` panics on a
    /// label-count mismatch, which the precondition rules out.
    #[verifier::external_body]
    pub(crate) fn get(&self, labels: &Vec<String>) -> (r: u64)
        requires
            labels@.len() == counter_labels(*self).len(),
        ensures
            r == at(counter_values(*self), key_of(labels@)),
    {
        let refs: Vec<&str> = labels.iter().map(|s| s.as_str()).collect();
        self.inner.with_label_values(&refs).get()
    }

    /// Relies on `with_label_values` and `inc_by`: adds `delta` to
    /// exactly that label combination. The precondition keeps the stored
    /// `u64` from wrapping and rules out the label-count panic.
    #[verifier::external_body]
    pub(crate) fn inc(&mut self, labels: &Vec<String>, delta: u64)
        requires
            labels@.len() == counter_labels(*old(self)).len(),
            at(counter_values(*old(self)), key_of(labels@)) + delta <= u64::MAX,
        ensures
            counter_labels(*final(self)) == counter_labels(*old(self)),
            counter_name(*final(self)) == counter_name(*old(self)),
            counter_values(*final(self)) == counter_values(*old(self)).insert(
                key_of(labels@),
                at(counter_values(*old(self)), key_of(labels@)) + delta,
            ),
    {
        let refs: Vec<&str> = labels.iter().map(|s| s.as_str()).collect();
        self.inner.with_label_values(&refs).inc_by(delta);
    }
}

impl GaugeVec {
    /// Relies on prometheus's `IntGaugeVec::new`: a fresh family has the
    /// given variable label names and no populated combination.
    #[verifier::external_body]
    pub(crate) fn new(name: &str, help: &str, labels: &Vec<&str>) -> (r: Result<
        GaugeVec,
        prometheus::Error,
    >)
        ensures
            match r {
                Ok(g) => gauge_labels(g) == labels@.map_values(|s: &str| s@)
                    && gauge_values(g) == Map::<Seq<char>, int>::empty() && gauge_name(g)
                    == name@,
                Err(_) => true,
            },
    {
        let inner = prometheus::IntGaugeVec::new(prometheus::Opts::new(name, help), labels)?;
        Ok(GaugeVec { inner })
    }

    /// Relies on `Registry::register`: adds the family's collector to the
    /// registry; the family itself is untouched.
    #[verifier::external_body]
    pub(crate) fn register(&self, r: &prometheus::Registry) -> (res: Result<(), prometheus::Error>) {
        r.register(Box::new(self.inner.clone()))
    }

    /// Relies on `with_label_values` and `set`: writes the gauge for
    /// exactly that label combination. The precondition rules out the
    /// label-count panic.
    #[verifier::external_body]
    pub(crate) fn set(&mut self, labels: &Vec<String>, v: i64)
        requires
            labels@.len() == gauge_labels(*old(self)).len(),
        ensures
            gauge_labels(*final(self)) == gauge_labels(*old(self)),
            gauge_name(*final(self)) == gauge_name(*old(self)),
            gauge_values(*final(self)) == gauge_values(*old(self)).insert(
                key_of(labels@),
                v as int,
            ),
    {
        let refs: Vec<&str> = labels.iter().map(|s| s.as_str()).collect();
        self.inner.with_label_values(&refs).set(v);
    }
}

/// Relies on `time::OffsetDateTime::now_utc` and `unix_timestamp`: the
/// wall clock in whole seconds. Nothing is assumed of the value.
#[verifier::external_body]
pub(crate) fn now_unix() -> i64 {
    time::OffsetDateTime::now_utc().unix_timestamp()
}

} // verus!
