//! The friends service: its error and data types, how a failed response is
//! reported, and how the values it returns are read.
use vstd::prelude::*;
use vstd::string::StringExecFns;

use crate::text::{decimal, decimal_string, digit_char, push_char, str_eq};

verus! {

/// Seconds to wait after a rate-limited response that names no wait.
pub const DEFAULT_RETRY_AFTER_SECS: u32 = 60;

/// The endpoint a response came from; it decides how a `400` reads.
#[derive(Clone, Copy, PartialEq, Eq, Structural, Debug)]
pub enum FriendsApi {
    FriendByName,
    FriendById,
    Presence,
    Attributes,
}

/// Why a friends request failed.
#[derive(Clone, Debug)]
pub enum FriendsApiError {
    RateLimited { retry_after_secs: u32 },
    Message { message: String },
}

#[derive(Clone, Debug)]
pub struct Friend {
    pub profile_id: String,
    pub name: String,
}

#[derive(Clone, Debug)]
pub struct FriendsList {
    pub friends: Vec<Friend>,
    pub incoming_requests: Vec<Friend>,
    pub outgoing_requests: Vec<Friend>,
}

impl Default for FriendsList {
    fn default() -> (r: Self)
        ensures
            r.friends@.len() == 0,
            r.incoming_requests@.len() == 0,
            r.outgoing_requests@.len() == 0,
    {
        FriendsList { friends: Vec::new(), incoming_requests: Vec::new(), outgoing_requests: Vec::new() }
    }
}

/// Whether a friend action adds or removes.
#[derive(Clone, Copy, PartialEq, Eq, Structural, Debug)]
pub enum UpdateType {
    Add,
    Remove,
}

#[derive(Clone, Debug)]
pub struct PresenceJoinInfo {
    pub value: String,
    pub invited: bool,
}

#[derive(Clone, Debug)]
pub struct PresenceEntry {
    pub profile_id: String,
    pub status: String,
    pub join_info: Option<PresenceJoinInfo>,
    pub last_updated: Option<String>,
}

#[derive(Clone, Copy, PartialEq, Eq, Structural, Debug)]
pub struct FriendSettings {
    pub show_in_list: bool,
    pub accept_invites: bool,
}




impl FriendsApiError {
    /// An error that carries `s` as its message.
    pub fn msg(s: String) -> (e: Self)
        ensures
            e matches FriendsApiError::Message { message } && message@ == s@,
    {
        FriendsApiError::Message { message: s }
    }

    /// The message shown for this error.
    pub fn to_string(&self) -> (r: String)
        ensures
            r@ == match self {
                FriendsApiError::RateLimited { retry_after_secs } => "Rate limited, try again in "@ + decimal(
                    *retry_after_secs as nat,
                ) + "s"@,
                FriendsApiError::Message { message } => message@,
            },
    {
        match self {
            FriendsApiError::RateLimited { retry_after_secs } => {
                let mut r = String::from_str("Rate limited, try again in ");
                let d = decimal_string(*retry_after_secs);
                r.append(d.as_str());
                r.append("s");
                r
            },
            FriendsApiError::Message { message } => message.clone(),
        }
    }
}

impl From<String> for FriendsApiError {
    fn from(message: String) -> (e: Self) {
        FriendsApiError::Message { message }
    }
}

impl vstd::std_specs::convert::FromSpecImpl<String> for FriendsApiError {
    open spec fn obeys_from_spec() -> bool {
        true
    }

    open spec fn from_spec(message: String) -> FriendsApiError {
        FriendsApiError::Message { message }
    }
}

impl UpdateType {
    /// The name the service uses for the action.
    pub fn as_str(&self) -> (r: &'static str)
        ensures
            r@ == match self {
                UpdateType::Add => "ADD"@,
                UpdateType::Remove => "REMOVE"@,
            },
    {
        match self {
            UpdateType::Add => "ADD",
            UpdateType::Remove => "REMOVE",
        }
    }
}

/// The name the service uses for a preference that is on or off.
pub fn toggle_str(value: bool) -> (r: &'static str)
    ensures
        r@ == if value {
            "ENABLED"@
        } else {
            "DISABLED"@
        },
{
    if value {
        "ENABLED"
    } else {
        "DISABLED"
    }
}

/// The message of a failed response that is not a rate limit: `400` is an
/// unknown name for a lookup by name and an invalid request otherwise,
/// `403` an account without a Java profile, and `5xx` an outage.
pub open spec fn error_message(api: FriendsApi, status: u16) -> Seq<char> {
    if status == 400 && api == FriendsApi::FriendByName {
        "Unknown profile name"@
    } else if status == 400 {
        "Invalid request"@
    } else if status == 403 {
        "Account does not have an active Java profile"@
    } else if status >= 500 {
        "Friends service unavailable, try again later"@
    } else {
        "Friends service returned HTTP "@ + decimal(status as nat)
    }
}

/// The error for a response with a failing HTTP `status` from `api`.
pub fn map_error(api: FriendsApi, status: u16, retry_after_secs: u32) -> (e: FriendsApiError)
    ensures
        status == 429 ==> e == (FriendsApiError::RateLimited { retry_after_secs }),
        status != 429 ==> (e matches FriendsApiError::Message { message } && message@ == error_message(api, status)),
{
    if status == 429 {
        FriendsApiError::RateLimited { retry_after_secs }
    } else if status == 400 && api == FriendsApi::FriendByName {
        FriendsApiError::msg(String::from_str("Unknown profile name"))
    } else if status == 400 {
        FriendsApiError::msg(String::from_str("Invalid request"))
    } else if status == 403 {
        FriendsApiError::msg(String::from_str("Account does not have an active Java profile"))
    } else if status >= 500 {
        FriendsApiError::msg(String::from_str("Friends service unavailable, try again later"))
    } else {
        let mut m = String::from_str("Friends service returned HTTP ");
        let d = decimal_string(status as u32);
        m.append(d.as_str());
        FriendsApiError::msg(m)
    }
}



/// A preference is on unless the service says `DISABLED`; an absent one
/// is on.
pub open spec fn preference_on(p: Option<&str>) -> bool {
    match p {
        Some(s) => s@ != "DISABLED"@,
        None => true,
    }
}

/// The settings read from the service's `friends` and `acceptInvites`
/// preferences.
pub fn settings_from_preferences(friends: Option<&str>, accept_invites: Option<&str>) -> (r: FriendSettings)
    ensures
        r.show_in_list == preference_on(friends),
        r.accept_invites == preference_on(accept_invites),
{
    let show_in_list = match friends {
        Some(f) => !str_eq(f, "DISABLED"),
        None => true,
    };
    let accept = match accept_invites {
        Some(a) => !str_eq(a, "DISABLED"),
        None => true,
    };
    FriendSettings { show_in_list, accept_invites: accept }
}

pub open spec fn not_dash(c: char) -> bool {
    c != '-'
}

/// `s` without its dashes: a dashed UUID in the undashed form.
pub fn strip_dashes(s: &str) -> (r: String)
    ensures
        r@ == s@.filter(|c: char| not_dash(c)),
{
    broadcast use vstd::string::group_string_axioms;
    let mut out = String::new();
    for c in it: s.chars()
        invariant
            it.seq() == s@,
            out@ == s@.take(it.index()).filter(|c: char| not_dash(c)),
    {
        let ghost i = it.index();
        proof {
            assert(s@.take(i + 1).drop_last() =~= s@.take(i));
            assert(s@.take(i + 1).last() == c);
            reveal_with_fuel(Seq::filter, 2);
        }
        if c != '-' {
            push_char(&mut out, c);
        }
    }
    proof {
        assert(s@.take(s@.len() as int) =~= s@);
    }
    out
}

/// The presence entries with each profile id in undashed form, as the
/// friends list gives them.
pub fn normalize_presence(entries: Vec<PresenceEntry>) -> (r: Vec<PresenceEntry>)
    ensures
        r@.len() == entries@.len(),
        forall|i: int| 0 <= i < r@.len() ==> {
            &&& #[trigger] r@[i].profile_id@ == entries@[i].profile_id@.filter(|c: char| not_dash(c))
            &&& r@[i].status == entries@[i].status
            &&& r@[i].join_info == entries@[i].join_info
            &&& r@[i].last_updated == entries@[i].last_updated
        },
{
    let ghost old_entries = entries@;
    let mut out: Vec<PresenceEntry> = Vec::new();
    for e in it: entries.into_iter()
        invariant
            it.seq() == old_entries,
            out@.len() == it.index(),
            forall|i: int| 0 <= i < out@.len() ==> {
                &&& #[trigger] out@[i].profile_id@ == old_entries[i].profile_id@.filter(|c: char| not_dash(c))
                &&& out@[i].status == old_entries[i].status
                &&& out@[i].join_info == old_entries[i].join_info
                &&& out@[i].last_updated == old_entries[i].last_updated
            },
    {
        let id = strip_dashes(e.profile_id.as_str());
        out.push(PresenceEntry { profile_id: id, status: e.status, join_info: e.join_info, last_updated: e.last_updated });
    }
    out
}


/// A byte that a header value may hold and still read as text: visible
/// ASCII or a tab.
pub open spec fn visible_ascii(b: u8) -> bool {
    (32 <= b && b < 127) || b == 9
}

/// ASCII white space.
pub open spec fn ascii_space(b: u8) -> bool {
    b == 32 || (9 <= b && b <= 13)
}

pub open spec fn trim_start(s: Seq<u8>) -> Seq<u8>
    decreases s.len(),
{
    if s.len() > 0 && ascii_space(s[0]) {
        trim_start(s.drop_first())
    } else {
        s
    }
}

pub open spec fn trim_end(s: Seq<u8>) -> Seq<u8>
    decreases s.len(),
{
    if s.len() > 0 && ascii_space(s.last()) {
        trim_end(s.drop_last())
    } else {
        s
    }
}

/// The value of a run of decimal digits.
pub open spec fn digits_value(d: Seq<u8>) -> nat
    decreases d.len(),
{
    if d.len() == 0 {
        0
    } else {
        digits_value(d.drop_last()) * 10 + (d.last() - 48) as nat
    }
}

pub open spec fn all_digits(d: Seq<u8>) -> bool {
    forall|i: int| 0 <= i < d.len() ==> 48 <= #[trigger] d[i] <= 57
}

/// An unsigned decimal number, with an optional leading `+`, that fits
/// in 32 bits.
pub open spec fn parsed_u32(s: Seq<u8>) -> Option<u32> {
    let d = if s.len() > 0 && s[0] == 43 {
        s.drop_first()
    } else {
        s
    };
    if d.len() > 0 && all_digits(d) && digits_value(d) <= u32::MAX {
        Some(digits_value(d) as u32)
    } else {
        None
    }
}

/// The wait named by a `Retry-After` header: its text, trimmed, as a whole
/// number of seconds; `DEFAULT_RETRY_AFTER_SECS` when the header is absent,
/// is not text, or is not such a number.
pub open spec fn retry_after(value: Option<&[u8]>) -> u32 {
    match value {
        Some(s) => { let v = s@; if (forall|i: int| 0 <= i < v.len() ==> visible_ascii(#[trigger] v[i])) && parsed_u32(
            trim_end(trim_start(v)),
        ) is Some {
            parsed_u32(trim_end(trim_start(v)))->0
        } else {
            DEFAULT_RETRY_AFTER_SECS
        } },
        None => DEFAULT_RETRY_AFTER_SECS,
    }
}

proof fn lemma_digits_prefix(d: Seq<u8>, k: int)
    requires
        0 <= k < d.len(),
    ensures
        digits_value(d.take(k + 1)) == digits_value(d.take(k)) * 10 + (d[k] - 48) as nat,
{
    assert(d.take(k + 1).drop_last() =~= d.take(k));
}

proof fn lemma_digits_monotone(d: Seq<u8>, k: int)
    requires
        0 <= k <= d.len(),
        all_digits(d),
    ensures
        digits_value(d.take(k)) <= digits_value(d),
    decreases d.len() - k,
{
    if k < d.len() {
        lemma_digits_prefix(d, k);
        assert(48 <= d[k]);
        lemma_digits_monotone(d, k + 1);
    } else {
        assert(d.take(k) =~= d);
    }
}

/// The number of seconds to wait that a `Retry-After` header value gives,
/// if it is present; `DEFAULT_RETRY_AFTER_SECS` otherwise.
pub fn parse_retry_after(value: Option<&[u8]>) -> (r: u32)
    ensures
        r == retry_after(value),
{
    let v = match value {
        Some(v) => v,
        None => return DEFAULT_RETRY_AFTER_SECS,
    };
    let n = v.len();
    let mut i: usize = 0;
    while i < n
        invariant
            value == Some(v),
            n == v@.len(),
            i <= n,
            forall|j: int| 0 <= j < i ==> visible_ascii(#[trigger] v@[j]),
        decreases n - i,
    {
        let b = v[i];
        if !((32 <= b && b < 127) || b == 9) {
            proof {
                assert(!visible_ascii(v@[i as int]));
            }
            return DEFAULT_RETRY_AFTER_SECS;
        }
        i += 1;
    }
    let mut start: usize = 0;
    proof {
        assert(v@.subrange(0, n as int) =~= v@);
    }
    while start < n && (v[start] == 32 || (9 <= v[start] && v[start] <= 13))
        invariant
            value == Some(v),
            n == v@.len(),
            start <= n,
            forall|j: int| 0 <= j < n ==> visible_ascii(#[trigger] v@[j]),
            trim_start(v@) == trim_start(v@.subrange(start as int, n as int)),
        decreases n - start,
    {
        proof {
            assert(v@.subrange(start as int, n as int).drop_first() =~= v@.subrange(start + 1, n as int));
        }
        start += 1;
    }
    let mut end: usize = n;
    proof {
        assert(trim_start(v@) == v@.subrange(start as int, n as int));
    }
    while end > start && (v[end - 1] == 32 || (9 <= v[end - 1] && v[end - 1] <= 13))
        invariant
            value == Some(v),
            n == v@.len(),
            start <= end <= n,
            forall|j: int| 0 <= j < n ==> visible_ascii(#[trigger] v@[j]),
            trim_end(trim_start(v@)) == trim_end(v@.subrange(start as int, end as int)),
        decreases end,
    {
        proof {
            assert(v@.subrange(start as int, end as int).drop_last() =~= v@.subrange(start as int, end - 1));
        }
        end -= 1;
    }
    let ghost t = v@.subrange(start as int, end as int);
    proof {
        assert(trim_end(trim_start(v@)) == t);
    }
    let mut d0 = start;
    if start < end && v[start] == 43 {
        d0 = start + 1;
    }
    let ghost d = v@.subrange(d0 as int, end as int);
    proof {
        if start < end && v@[start as int] == 43 {
            assert(t.drop_first() =~= d);
        } else {
            assert(t =~= d);
        }
    }
    if d0 >= end {
        return DEFAULT_RETRY_AFTER_SECS;
    }
    let mut acc: u64 = 0;
    let mut k: usize = d0;
    while k < end
        invariant
            value == Some(v),
            n == v@.len(),
            d0 <= k <= end <= n,
            d == v@.subrange(d0 as int, end as int),
            forall|j: int| 0 <= j < n ==> visible_ascii(#[trigger] v@[j]),
            trim_end(trim_start(v@)) == t,
            (t.len() > 0 && t[0] == 43) ==> d == t.drop_first(),
            !(t.len() > 0 && t[0] == 43) ==> d == t,
            all_digits(d.take(k - d0)),
            acc == digits_value(d.take(k - d0)),
            acc <= u32::MAX,
        decreases end - k,
    {
        let b = v[k];
        if b < 48 || b > 57 {
            proof {
                assert(d[k - d0] == b);
                assert(!all_digits(d));
            }
            return DEFAULT_RETRY_AFTER_SECS;
        }
        proof {
            lemma_digits_prefix(d, k - d0);
            assert(d.take(k - d0 + 1) =~= d.take(k - d0).push(b));
        }
        acc = acc * 10 + (b - 48) as u64;
        if acc > 0xffff_ffff {
            proof {
                if all_digits(d) {
                    lemma_digits_monotone(d, k - d0 + 1);
                }
            }
            return DEFAULT_RETRY_AFTER_SECS;
        }
        k += 1;
    }
    proof {
        assert(d.take(k - d0) =~= d);
    }
    acc as u32
}


/// The ASCII bytes of `n` in decimal.
pub open spec fn decimal_bytes(n: nat) -> Seq<u8> {
    decimal(n).map_values(|c: char| c as u8)
}

proof fn lemma_decimal_bytes(n: nat)
    ensures
        decimal_bytes(n).len() > 0,
        all_digits(decimal_bytes(n)),
        digits_value(decimal_bytes(n)) == n,
    decreases n,
{
    if n < 10 {
        let b = decimal_bytes(n);
        assert(b =~= seq![(n + 48) as u8]);
        assert(b.drop_last() =~= Seq::<u8>::empty());
        assert(b.last() == (n + 48) as u8);
        assert(digits_value(b) == digits_value(b.drop_last()) * 10 + (b.last() - 48) as nat);
    } else {
        lemma_decimal_bytes(n / 10);
        let p = decimal_bytes(n / 10);
        let b = decimal_bytes(n);
        assert(b =~= p.push(((n % 10) + 48) as u8));
        assert(b.drop_last() =~= p);
        assert(b.last() == ((n % 10) + 48) as u8);
        assert(digits_value(b) == digits_value(p) * 10 + (n % 10));
        assert(n == (n / 10) * 10 + n % 10);
    }
}

/// A `Retry-After` header that gives a number of seconds in decimal reads
/// back as that number.
pub proof fn law_retry_after_decimal(n: u32, header: &[u8])
    requires
        header@ == decimal_bytes(n as nat),
    ensures
        retry_after(Some(header)) == n,
{
    lemma_decimal_bytes(n as nat);
    let v = header@;
    assert forall|i: int| 0 <= i < v.len() implies visible_ascii(#[trigger] v[i]) by {
        assert(48 <= v[i] <= 57);
    }
    assert(48 <= v[0] <= 57);
    assert(trim_start(v) == v);
    assert(48 <= v.last() <= 57);
    assert(v.last() == v[v.len() - 1]);
    assert(trim_end(v) == v);
}

} // verus!
