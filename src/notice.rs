//! Decisions of the push-notice consumer: which actions a matched rule
//! asks for, whether a pusher's target may be contacted, and how the
//! notification is flagged.
use vstd::prelude::*;
use crate::reduce::reversed;
use ipaddress::IPAddress;
use vstd::string::StrSliceExecFns;

verus! {

/// The kinds of tweak that decide a notification's priority.
#[derive(PartialEq, Eq, Structural, Clone, Copy, Debug)]
pub enum TweakKind {
    Highlight(bool),
    Sound,
    Other,
}

#[derive(PartialEq, Eq, Structural, Clone, Copy, Debug)]
pub enum Priority {
    High,
    Low,
}

/// One action of a matched push rule, with the tweak payload kept opaque.
pub enum Action<T> {
    Notify,
    SetTweak(T),
    /// Any other action (`dont_notify`, `coalesce`, unknown ones).
    Other,
}

/// What a rule's actions amount to.
pub struct ActionPlan<T> {
    /// `Some(true)` to notify, `Some(false)` for another deciding action,
    /// `None` when no action decided.
    pub notify: Option<bool>,
    /// The tweaks that the actions set, in their order.
    pub tweaks: Vec<T>,
}

#[derive(PartialEq, Eq, Structural, Clone, Copy, Debug)]
pub enum NoticeError {
    /// A rule holds more than one deciding action.
    MalformedRule,
    /// The pusher's URL does not parse.
    InvalidUrl,
    /// The pusher's URL is not an HTTP or HTTPS one.
    NotHttp,
}

/// The tweak payloads among `s`, in order.
pub open spec fn tweaks_of<T>(s: Seq<Action<T>>) -> Seq<T>
    decreases s.len(),
{
    if s.len() == 0 {
        Seq::empty()
    } else {
        match s.last() {
            Action::SetTweak(t) => tweaks_of(s.drop_last()).push(t),
            _ => tweaks_of(s.drop_last()),
        }
    }
}

/// For each deciding action among `s`, in order, whether it is `Notify`.
pub open spec fn verdicts_of<T>(s: Seq<Action<T>>) -> Seq<bool>
    decreases s.len(),
{
    if s.len() == 0 {
        Seq::empty()
    } else {
        match s.last() {
            Action::SetTweak(_) => verdicts_of(s.drop_last()),
            Action::Notify => verdicts_of(s.drop_last()).push(true),
            Action::Other => verdicts_of(s.drop_last()).push(false),
        }
    }
}

/// Folds a rule's actions into a plan; more than one deciding action is a
/// malformed rule.
pub fn evaluate_actions<T>(actions: Vec<Action<T>>) -> (r: Result<ActionPlan<T>, NoticeError>)
    ensures
        r is Err <==> verdicts_of(actions@).len() >= 2,
        r is Err ==> r->Err_0 == NoticeError::MalformedRule,
        r is Ok ==> r->Ok_0.tweaks@ == tweaks_of(actions@) && r->Ok_0.notify == (if verdicts_of(actions@).len() == 0 {
            None
        } else {
            Some(verdicts_of(actions@)[0])
        }),
{
    let ghost s = actions@;
    let n = actions.len();
    let mut queue = reversed(actions);
    let mut notify: Option<bool> = None;
    let mut tweaks: Vec<T> = Vec::new();
    let mut i: usize = 0;
    while i < n
        invariant
            s == actions@,
            n == s.len(),
            i <= n,
            queue.len() == n - i,
            forall|k: int| 0 <= k < queue.len() ==> queue@[k] == s[n - 1 - k],
            tweaks@ == tweaks_of(s.take(i as int)),
            verdicts_of(s.take(i as int)).len() <= 1,
            notify == (if verdicts_of(s.take(i as int)).len() == 0 {
                None
            } else {
                Some(verdicts_of(s.take(i as int))[0])
            }),
        decreases n - i,
    {
        let a = queue.pop().unwrap();
        assert(a == s[i as int]);
        assert(s.take(i + 1).drop_last() =~= s.take(i as int));
        let verdict = match a {
            Action::SetTweak(t) => {
                tweaks.push(t);
                None
            },
            Action::Notify => Some(true),
            Action::Other => Some(false),
        };
        if verdict.is_some() {
            if notify.is_some() {
                proof {
                    lemma_verdicts_grow(s, i as int + 1, n as int);
                    assert(s.take(n as int) =~= s);
                }
                return Err(NoticeError::MalformedRule);
            }
            notify = verdict;
        }
        i = i + 1;
    }
    assert(s.take(n as int) =~= s);
    Ok(ActionPlan { notify, tweaks })
}

/// Whether a push notice goes out: the tweaks to send with it when the
/// rule's only deciding action is `Notify`, `None` when no notice is due.
pub fn notice_to_send<T>(actions: Vec<Action<T>>) -> (r: Result<Option<Vec<T>>, NoticeError>)
    ensures
        r is Err <==> verdicts_of(actions@).len() >= 2,
        r is Err ==> r->Err_0 == NoticeError::MalformedRule,
        r is Ok ==> (r->Ok_0 is Some <==> (verdicts_of(actions@).len() == 1 && verdicts_of(actions@)[0])),
        r matches Ok(Some(t)) ==> t@ == tweaks_of(actions@),
{
    match evaluate_actions(actions) {
        Ok(plan) => {
            if plan.notify == Some(true) {
                Ok(Some(plan.tweaks))
            } else {
                Ok(None)
            }
        },
        Err(e) => Err(e),
    }
}

proof fn lemma_verdicts_grow<T>(s: Seq<Action<T>>, i: int, j: int)
    requires
        0 <= i <= j <= s.len(),
    ensures
        verdicts_of(s.take(i)).len() <= verdicts_of(s.take(j)).len(),
    decreases j - i,
{
    if i < j {
        lemma_verdicts_grow(s, i, j - 1);
        assert(s.take(j).drop_last() =~= s.take(j - 1));
    }
}

/// A tweak that makes a notification urgent: a highlight or a sound.
pub open spec fn loud(t: TweakKind) -> bool {
    t == TweakKind::Highlight(true) || t == TweakKind::Sound
}

/// Encrypted events and loud tweaks get high priority, all else low.
pub fn notice_priority(encrypted: bool, tweaks: &Vec<TweakKind>) -> (r: Priority)
    ensures
        r == (if encrypted || exists|i: int| 0 <= i < tweaks.len() && loud(tweaks@[i]) {
            Priority::High
        } else {
            Priority::Low
        }),
{
    if encrypted {
        return Priority::High;
    }
    let mut i: usize = 0;
    while i < tweaks.len()
        invariant
            i <= tweaks.len(),
            forall|j: int| 0 <= j < i ==> !loud(tweaks@[j]),
        decreases tweaks.len() - i,
    {
        let t = tweaks[i];
        if t == TweakKind::Highlight(true) || t == TweakKind::Sound {
            return Priority::High;
        }
        i = i + 1;
    }
    Priority::Low
}

/// A pusher data key that turns off the unread badge count.
pub open spec fn disables_badge(k: Seq<char>) -> bool {
    k == "org.matrix.msc4076.disable_badge_count"@ || k == "disable_badge_count"@
}

/// Whether any of the pusher's data keys turns off the badge count.
pub fn badge_disabled(keys: &Vec<String>) -> (r: bool)
    ensures
        r == exists|i: int| 0 <= i < keys.len() && disables_badge(keys@[i]@),
{
    let unstable = "org.matrix.msc4076.disable_badge_count".to_owned();
    let stable = "disable_badge_count".to_owned();
    let mut i: usize = 0;
    while i < keys.len()
        invariant
            i <= keys.len(),
            unstable@ == "org.matrix.msc4076.disable_badge_count"@,
            stable@ == "disable_badge_count"@,
            forall|j: int| 0 <= j < i ==> !disables_badge(keys@[j]@),
        decreases keys.len() - i,
    {
        if keys[i] == unstable || keys[i] == stable {
            return true;
        }
        i = i + 1;
    }
    false
}

/// The (unread, missed calls) counts sent with a notice: none when the
/// pusher turned the badge off.
pub fn notice_counts(unread: u64, keys: &Vec<String>) -> (r: (u64, u64))
    ensures
        r == (if exists|i: int| 0 <= i < keys.len() && disables_badge(keys@[i]@) {
            (0u64, 0u64)
        } else {
            (unread, 0u64)
        }),
{
    if badge_disabled(keys) {
        (0, 0)
    } else {
        (unread, 0)
    }
}

/// A membership event targets the recipient when its state key names the
/// sender.
pub fn user_is_target(state_key: &Option<String>, sender: &String) -> (r: bool)
    ensures
        r == (state_key is Some && state_key->0@ == sender@),
{
    match state_key {
        Some(k) => *k == *sender,
        None => false,
    }
}

#[verifier::external_type_specification]
#[verifier::external_body]
pub struct ExParseError(url::ParseError);

#[verifier::external_type_specification]
#[verifier::external_body]
pub struct ExIPAddress(IPAddress);

/// What the URL parser makes of a string: its scheme and its host, or
/// nothing when the string is no URL.
pub uninterp spec fn parsed_url(s: Seq<char>) -> Option<(Seq<char>, Option<Seq<char>>)>;

/// The lower-case form of a string.
pub uninterp spec fn lower_of(s: Seq<char>) -> Seq<char>;

/// Whether a host string parses as an IP address.
pub uninterp spec fn parses_as_ip(s: Seq<char>) -> bool;

/// The scheme and host of a parsed URL.
pub struct UrlParts {
    pub scheme: String,
    pub host: Option<String>,
}

pub open spec fn host_view(h: Option<String>) -> Option<Seq<char>> {
    match h {
        Some(s) => Some(s@),
        None => None,
    }
}

/// Relies on url::Url::parse, read through Url::scheme and Url::host_str:
/// the scheme and host that the parser finds in `s`, or its error.
#[verifier::external_body]
fn parse_url(s: &str) -> (r: Result<UrlParts, url::ParseError>)
    ensures
        r is Ok <==> parsed_url(s@) is Some,
        r is Ok ==> parsed_url(s@) == Some((r->Ok_0.scheme@, host_view(r->Ok_0.host))),
{
    match url::Url::parse(s) {
        Ok(u) => Ok(UrlParts { scheme: u.scheme().to_owned(), host: u.host_str().map(str::to_owned) }),
        Err(e) => Err(e),
    }
}

/// Relies on str::to_lowercase: the result depends on the characters alone.
#[verifier::external_body]
fn lowercase(s: &str) -> (r: String)
    ensures
        r@ == lower_of(s@),
{
    s.to_lowercase()
}

/// How many colons `s` holds.
pub open spec fn colons(s: Seq<char>) -> nat
    decreases s.len(),
{
    if s.len() == 0 {
        0
    } else {
        colons(s.drop_last()) + if s.last() == ':' {
            1nat
        } else {
            0nat
        }
    }
}

/// Text in the shape the URL parser writes a host in: no slash, and where
/// it has a colon (IPv6), no dot and at most seven colons.
pub open spec fn address_text(s: Seq<char>) -> bool {
    &&& !s.contains('/')
    &&& s.contains(':') ==> !s.contains('.') && colons(s) <= 7
}

/// A host without the brackets that enclose an IPv6 address in a URL.
pub open spec fn unbracketed(h: Seq<char>) -> Seq<char> {
    if h.len() >= 2 && h[0] == '[' && h[h.len() - 1] == ']' {
        h.subrange(1, h.len() - 1)
    } else {
        h
    }
}

/// Relies on ipaddress::IPAddress::parse: the address when `s` is one.
/// On text of this shape it returns: a slash would read a netmask, and more
/// than eight IPv6 groups overflow its shift arithmetic.
#[verifier::external_body]
fn parse_ip(s: &str) -> (r: Option<IPAddress>)
    requires
        address_text(s@),
    ensures
        r is Some <==> parses_as_ip(s@),
{
    IPAddress::parse(s).ok()
}

fn is_address_text(s: &str) -> (r: bool)
    ensures
        r == address_text(s@),
{
    let n = s.unicode_len();
    let mut i: usize = 0;
    let mut count: usize = 0;
    let mut slash = false;
    let mut dot = false;
    while i < n
        invariant
            n == s@.len(),
            i <= n,
            count as nat == colons(s@.take(i as int)),
            count <= i,
            slash == s@.take(i as int).contains('/'),
            dot == s@.take(i as int).contains('.'),
            (count == 0) == !s@.take(i as int).contains(':'),
        decreases n - i,
    {
        let c = s.get_char(i);
        let ghost t = s@.take(i + 1);
        assert(t.drop_last() =~= s@.take(i as int));
        assert(t.last() == c);
        proof {
            assert forall|x: char| t.contains(x) <==> (s@.take(i as int).contains(x) || x == c) by {
                if t.contains(x) {
                    let k = choose|k: int| 0 <= k < t.len() && t[k] == x;
                    if k < i {
                        assert(s@.take(i as int)[k] == x);
                    }
                }
                if s@.take(i as int).contains(x) {
                    let k = choose|k: int| 0 <= k < i && s@.take(i as int)[k] == x;
                    assert(t[k] == x);
                }
                if x == c {
                    assert(t[i as int] == x);
                }
            }
        }
        if c == ':' {
            count = count + 1;
        } else if c == '/' {
            slash = true;
        } else if c == '.' {
            dot = true;
        }
        i = i + 1;
    }
    assert(s@.take(n as int) =~= s@);
    !slash && (count == 0 || (!dot && count <= 7))
}

pub open spec fn http_scheme(s: Seq<char>) -> bool {
    s == "http"@ || s == "https"@
}

/// The host of a parsed URL, IPv6 brackets removed.
pub open spec fn pusher_host(u: Seq<char>) -> Option<Seq<char>> {
    match parsed_url(u) {
        Some(parts) => match parts.1 {
            Some(h) => Some(unbracketed(h)),
            None => None,
        },
        None => None,
    }
}

/// Why a pusher URL is refused before any address check, if it is: it does
/// not parse, it is not HTTP(S), or its host is in no shape a URL host has.
pub open spec fn url_rejection(u: Seq<char>) -> Option<NoticeError> {
    match parsed_url(u) {
        None => Some(NoticeError::InvalidUrl),
        Some(parts) => if !http_scheme(lower_of(parts.0)) {
            Some(NoticeError::NotHttp)
        } else {
            match pusher_host(u) {
                Some(h) => if address_text(h) {
                    None
                } else {
                    Some(NoticeError::InvalidUrl)
                },
                None => None,
            }
        },
    }
}

/// Whether the URL's host is an IP address, which must then pass the
/// server's address-range check before it is contacted.
pub open spec fn host_is_address(u: Seq<char>) -> bool {
    match pusher_host(u) {
        Some(h) => address_text(h) && parses_as_ip(h),
        None => false,
    }
}

/// Checks a pusher URL: it must parse and use HTTP or HTTPS. Returns the
/// host's address when the host is an IP address.
pub fn check_pusher_url(url: &str) -> (r: Result<Option<IPAddress>, NoticeError>)
    ensures
        r is Err <==> url_rejection(url@) is Some,
        r is Err ==> r->Err_0 == url_rejection(url@)->0,
        r is Ok ==> (r->Ok_0 is Some <==> host_is_address(url@)),
{
    let parts = match parse_url(url) {
        Ok(p) => p,
        Err(_) => {
            return Err(NoticeError::InvalidUrl);
        },
    };
    let scheme = lowercase(parts.scheme.as_str());
    let http = "http".to_owned();
    let https = "https".to_owned();
    if !(scheme == http || scheme == https) {
        return Err(NoticeError::NotHttp);
    }
    match parts.host {
        Some(h) => {
            let host = h.as_str();
            let n = host.unicode_len();
            let inner = if n >= 2 && host.get_char(0) == '[' && host.get_char(n - 1) == ']' {
                host.substring_char(1, n - 1)
            } else {
                host
            };
            if !is_address_text(inner) {
                return Err(NoticeError::InvalidUrl);
            }
            Ok(parse_ip(inner))
        },
        None => Ok(None),
    }
}

} // verus!
