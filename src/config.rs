//! The configured desired connections.
//!
//! Durations are whole seconds.

use vstd::prelude::*;

verus! {

/// A desired connection as a mathematical value.
pub ghost struct DesiredConnectionView {
    pub start: Seq<char>,
    pub destination: Seq<char>,
    pub walk_to_start: i64,
    pub ignore_starting_with: Set<Seq<char>>,
}

/// The intent to travel from one station to another, with the time it
/// takes to walk to the start station and the labels of lines to ignore.
#[derive(Debug, Clone)]
pub struct DesiredConnection {
    /// The name of the start station.
    pub start: String,
    /// The name of the destination station.
    pub destination: String,
    /// How many seconds to account for to walk to the start station.
    pub walk_to_start: i64,
    /// Line labels (such as "S2", "12" or "947") to ignore; a set: their
    /// order and repetitions carry no meaning.
    pub ignore_starting_with: Vec<String>,
}

/// The character sequences of some strings, in order.
pub open spec fn texts(s: Seq<String>) -> Seq<Seq<char>> {
    s.map_values(|t: String| t@)
}

impl View for DesiredConnection {
    type V = DesiredConnectionView;

    open spec fn view(&self) -> DesiredConnectionView {
        DesiredConnectionView {
            start: self.start@,
            destination: self.destination@,
            walk_to_start: self.walk_to_start,
            ignore_starting_with: label_set(self.ignore_starting_with@),
        }
    }
}

/// The set of texts of some strings.
pub open spec fn label_set(s: Seq<String>) -> Set<Seq<char>> {
    texts(s).to_set()
}

/// Whether `label` is one of `labels`.
pub fn is_ignored(label: &String, labels: &Vec<String>) -> (r: bool)
    ensures
        r == label_set(labels@).contains(label@),
{
    let mut i: usize = 0;
    while i < labels.len()
        invariant
            i <= labels@.len(),
            forall|j: int| 0 <= j < i ==> labels@[j]@ != label@,
        decreases labels@.len() - i,
    {
        if labels[i] == *label {
            proof {
                assert(texts(labels@)[i as int] == label@);
            }
            return true;
        }
        i = i + 1;
    }
    proof {
        if texts(labels@).contains(label@) {
            let j = choose|j: int| 0 <= j < texts(labels@).len() && texts(labels@)[j] == label@;
            assert(labels@[j]@ == label@);
        }
    }
    false
}

/// Whether every label of `a` is one of `b`.
fn labels_within(a: &Vec<String>, b: &Vec<String>) -> (r: bool)
    ensures
        r == label_set(a@).subset_of(label_set(b@)),
{
    let mut i: usize = 0;
    while i < a.len()
        invariant
            i <= a@.len(),
            forall|j: int| 0 <= j < i ==> label_set(b@).contains(#[trigger] a@[j]@),
        decreases a@.len() - i,
    {
        if !is_ignored(&a[i], b) {
            proof {
                assert(texts(a@)[i as int] == a@[i as int]@);
                assert(label_set(a@).contains(a@[i as int]@));
            }
            return false;
        }
        i = i + 1;
    }
    proof {
        assert forall|x: Seq<char>| label_set(a@).contains(x) implies label_set(b@).contains(x) by {
            let j = choose|j: int| 0 <= j < texts(a@).len() && texts(a@)[j] == x;
            assert(a@[j]@ == x);
        }
    }
    true
}

/// Whether two lists of strings hold the same set of texts.
pub fn same_labels(a: &Vec<String>, b: &Vec<String>) -> (r: bool)
    ensures
        r == (label_set(a@) == label_set(b@)),
{
    let ab = labels_within(a, b);
    let ba = labels_within(b, a);
    proof {
        if ab && ba {
            assert(label_set(a@) =~= label_set(b@));
        }
    }
    ab && ba
}

impl PartialEq for DesiredConnection {
    fn eq(&self, other: &DesiredConnection) -> (r: bool) {
        self.start == other.start && self.destination == other.destination && self.walk_to_start
            == other.walk_to_start && same_labels(
            &self.ignore_starting_with,
            &other.ignore_starting_with,
        )
    }
}

impl vstd::std_specs::cmp::PartialEqSpecImpl for DesiredConnection {
    open spec fn obeys_eq_spec() -> bool {
        true
    }

    open spec fn eq_spec(&self, other: &DesiredConnection) -> bool {
        self@ == other@
    }
}

impl DesiredConnection {
    /// The instant at which a connection should depart at the earliest when
    /// one sets off at `now`, if it is representable.
    pub fn departure_after_walk(&self, now: i64) -> (r: Option<i64>)
        ensures
            r == (if i64::MIN <= now + self.walk_to_start <= i64::MAX {
                Some((now + self.walk_to_start) as i64)
            } else {
                None::<i64>
            }),
    {
        now.checked_add(self.walk_to_start)
    }
}

/// The configuration: the desired connections, in order.
#[derive(Debug, Clone)]
pub struct Config {
    pub connections: Vec<DesiredConnection>,
}

impl View for Config {
    type V = Seq<DesiredConnectionView>;

    open spec fn view(&self) -> Seq<DesiredConnectionView> {
        self.connections@.map_values(|d: DesiredConnection| d@)
    }
}


/// The whole seconds and the nanoseconds beyond them of the duration that
/// `humantime::parse_duration` reads from a text, or `None` where it
/// refuses the text.
pub uninterp spec fn humantime_duration(text: Seq<char>) -> Option<(u64, u32)>;

/// How many of the characters are the ASCII digits '0' to '9'.
pub open spec fn digit_count(s: Seq<char>) -> nat
    decreases s.len(),
{
    if s.len() == 0 {
        0
    } else {
        digit_count(s.drop_last()) + if '0' <= s.last() <= '9' {
            1nat
        } else {
            0nat
        }
    }
}

/// The most digits a duration text may hold. With this many, every sum of
/// the units a text can name stays far below the largest `u64` count of
/// seconds, where the parser would panic.
pub const MAX_DURATION_DIGITS: usize = 11;

/// Relies on `humantime::parse_duration`: the duration read from a text
/// such as "5min" or "1h 30m" depends on the text alone; an empty text is
/// refused; the nanoseconds of a `std::time::Duration` stay below one
/// second. With few enough digits the sums it forms cannot reach the
/// seconds that make `Duration::new` panic.
#[verifier::external_body]
fn parse_human_duration(text: &str) -> (r: Option<(u64, u32)>)
    requires
        digit_count(text@) <= MAX_DURATION_DIGITS,
    ensures
        r == humantime_duration(text@),
        text@.len() == 0 ==> r is None,
        r matches Some(d) ==> d.1 < 1_000_000_000,
{
    match humantime::parse_duration(text) {
        Ok(d) => Some((d.as_secs(), d.subsec_nanos())),
        Err(_) => None,
    }
}

/// Count the ASCII digits of a text.
pub fn count_digits(text: &str) -> (r: usize)
    ensures
        r == digit_count(text@),
{
    let n = text.unicode_len();
    let mut count: usize = 0;
    let mut i: usize = 0;
    while i < n
        invariant
            n == text@.len(),
            i <= n,
            count <= i,
            count == digit_count(text@.take(i as int)),
        decreases n - i,
    {
        let c = text.get_char(i);
        proof {
            assert(text@.take(i + 1).drop_last() =~= text@.take(i as int));
            assert(text@.take(i + 1).last() == c);
        }
        if '0' <= c && c <= '9' {
            count = count + 1;
        }
        i = i + 1;
    }
    proof {
        assert(text@.take(n as int) =~= text@);
    }
    count
}

/// The longest walk, in whole seconds, that a duration may have: the bound
/// of a signed 64-bit count of milliseconds.
pub const MAX_WALK_SECONDS: u64 = 9_223_372_036_854_775;

/// The nanoseconds a duration of exactly `MAX_WALK_SECONDS` may have on top.
pub const MAX_WALK_EXTRA_NANOS: u32 = 807_000_000;

/// The walk in whole seconds for a duration of `secs` seconds and `nanos`
/// nanoseconds, if it is within range; the fraction of a second is dropped.
pub open spec fn walk_seconds_of(secs: u64, nanos: u32) -> Option<i64> {
    if secs < MAX_WALK_SECONDS || (secs == MAX_WALK_SECONDS && nanos <= MAX_WALK_EXTRA_NANOS) {
        Some(secs as i64)
    } else {
        None
    }
}

/// The walk in whole seconds for a duration of `secs` seconds and `nanos`
/// nanoseconds, if it is within range.
pub fn walk_seconds(secs: u64, nanos: u32) -> (r: Option<i64>)
    ensures
        r == walk_seconds_of(secs, nanos),
{
    if secs < MAX_WALK_SECONDS || (secs == MAX_WALK_SECONDS && nanos <= MAX_WALK_EXTRA_NANOS) {
        Some(secs as i64)
    } else {
        None
    }
}

/// Read the walk to the start station from a human-readable duration such
/// as "5min": `None` if the text holds more than `MAX_DURATION_DIGITS`
/// digits, is no duration, or the duration is out of range.
pub fn walk_time_from_text(text: &str) -> (r: Option<i64>)
    ensures
        r == if digit_count(text@) <= MAX_DURATION_DIGITS {
            match humantime_duration(text@) {
                Some(d) => walk_seconds_of(d.0, d.1),
                None => None,
            }
        } else {
            None
        },
        text@.len() == 0 ==> r is None,
{
    if count_digits(text) > MAX_DURATION_DIGITS {
        return None;
    }
    match parse_human_duration(text) {
        Some(d) => walk_seconds(d.0, d.1),
        None => None,
    }
}


/// The text `humantime::format_duration` writes for a duration of `secs`
/// whole seconds.
pub uninterp spec fn humantime_text(secs: u64) -> Seq<char>;

/// Relies on `humantime::format_duration` and its `Display`: the text for a
/// whole number of seconds depends on that number alone; zero reads "0s".
#[verifier::external_body]
fn format_human_duration(secs: u64) -> (r: String)
    ensures
        r@ == humantime_text(secs),
        secs == 0 ==> r@ == "0s"@,
{
    humantime::format_duration(std::time::Duration::from_secs(secs)).to_string()
}

/// Write a walk as a human-readable duration such as "5m"; `None` for a
/// negative walk, which has no such form.
pub fn walk_time_to_text(walk: i64) -> (r: Option<String>)
    ensures
        match r {
            Some(t) => walk >= 0 && t@ == humantime_text(walk as u64),
            None => walk < 0,
        },
{
    if walk < 0 {
        None
    } else {
        Some(format_human_duration(walk as u64))
    }
}

} // verus!
