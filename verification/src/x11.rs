//! X11 forwarding settings: the trust policy, the forwarding configuration
//! and the local DISPLAY it starts from.
use vstd::prelude::*;
use vstd::string::{StrSliceExecFns, StringExecFns};

use crate::decimal::{
    digits_value, is_ascii_digit, lemma_digits_value_monotone, lemma_digits_value_step,
};
use crate::text::{
    decimal_chars, first_index_of, last_index_of, lemma_first_index_of, lemma_last_index_of,
    push_decimal,
};

verus! {

/// OpenSSH's default lifetime of untrusted X11 forwarding: twenty minutes.
pub const DEFAULT_X11_UNTRUSTED_TIMEOUT_MILLIS: u64 = 1200000;

/// Whether the remote X clients are trusted with the local display.
#[derive(Clone, Copy, Debug, PartialEq, Eq, Structural)]
pub enum X11ForwardTrust {
    Trusted,
    Untrusted,
}

/// What to do when no real X authority cookie is available.
#[derive(Clone, Copy, Debug, PartialEq, Eq, Structural)]
pub enum X11AuthFallbackMode {
    RequireRealAuth,
    GenerateSyntheticCookie,
}

/// How a session forwards X11.
#[derive(Clone, Copy, Debug, PartialEq, Eq, Structural)]
pub struct X11ForwardPolicy {
    pub trust: X11ForwardTrust,
    pub timeout_millis: Option<u64>,
    pub fallback: X11AuthFallbackMode,
}

/// The default policy: untrusted, with OpenSSH's timeout, real auth only.
pub open spec fn default_policy() -> X11ForwardPolicy {
    X11ForwardPolicy {
        trust: X11ForwardTrust::Untrusted,
        timeout_millis: Some(DEFAULT_X11_UNTRUSTED_TIMEOUT_MILLIS),
        fallback: X11AuthFallbackMode::RequireRealAuth,
    }
}

impl X11ForwardPolicy {
    /// Trusted forwarding: no timeout, real auth only.
    pub fn trusted() -> (r: Self)
        ensures
            r == (X11ForwardPolicy {
                trust: X11ForwardTrust::Trusted,
                timeout_millis: None,
                fallback: X11AuthFallbackMode::RequireRealAuth,
            }),
    {
        X11ForwardPolicy {
            trust: X11ForwardTrust::Trusted,
            timeout_millis: None,
            fallback: X11AuthFallbackMode::RequireRealAuth,
        }
    }

    /// Untrusted forwarding: the default policy.
    pub fn untrusted() -> (r: Self)
        ensures
            r == default_policy(),
    {
        Self::default()
    }

    /// The same policy with a timeout.
    pub fn with_timeout_millis(self, timeout_millis: u64) -> (r: Self)
        ensures
            r == (X11ForwardPolicy { timeout_millis: Some(timeout_millis), ..self }),
    {
        let mut policy = self;
        policy.timeout_millis = Some(timeout_millis);
        policy
    }

    /// The same policy without a timeout.
    pub fn without_timeout(self) -> (r: Self)
        ensures
            r == (X11ForwardPolicy { timeout_millis: None, ..self }),
    {
        let mut policy = self;
        policy.timeout_millis = None;
        policy
    }

    /// The same policy with another auth fallback.
    pub fn with_fallback(self, fallback: X11AuthFallbackMode) -> (r: Self)
        ensures
            r == (X11ForwardPolicy { fallback, ..self }),
    {
        let mut policy = self;
        policy.fallback = fallback;
        policy
    }

    /// Whether the policy trusts remote clients.
    pub fn is_trusted(self) -> (r: bool)
        ensures
            r == (self.trust == X11ForwardTrust::Trusted),
    {
        self.trust == X11ForwardTrust::Trusted
    }
}

impl Default for X11ForwardPolicy {
    fn default() -> (r: Self)
        ensures
            r == default_policy(),
    {
        X11ForwardPolicy {
            trust: X11ForwardTrust::Untrusted,
            timeout_millis: Some(DEFAULT_X11_UNTRUSTED_TIMEOUT_MILLIS),
            fallback: X11AuthFallbackMode::RequireRealAuth,
        }
    }
}

/// Each builder changes exactly its own field: setting a timeout and then
/// removing it gives the policy back without one, whatever it was.
pub proof fn lemma_policy_builders(p: X11ForwardPolicy, t: u64, f: X11AuthFallbackMode)
    ensures
        (X11ForwardPolicy { timeout_millis: None, ..(X11ForwardPolicy {
            timeout_millis: Some(t),
            ..p
        }) }) == (X11ForwardPolicy { timeout_millis: None, ..p }),
        (X11ForwardPolicy { fallback: f, ..p }).trust == p.trust,
        (X11ForwardPolicy { fallback: f, ..p }).timeout_millis == p.timeout_millis,
        (X11ForwardPolicy { timeout_millis: Some(t), ..p }).trust == p.trust,
        (X11ForwardPolicy { timeout_millis: Some(t), ..p }).fallback == p.fallback,
{
}

/// Why X11 forwarding could not be set up.
#[derive(Debug, PartialEq, Eq)]
pub enum X11ForwardingError {
    EmptyDisplay,
    MissingDisplay,
    InvalidDisplay(String),
    DisplayPortOutOfRange(u16),
    InvalidAuthCookie(String),
    UnsupportedAuthProtocol(String),
    InvalidXauthRecord(&'static str),
    MissingAuthEntry,
    AuthorityFileUnavailable(String),
    XauthUnavailable(String),
    XauthTimedOut,
    XauthFailed(String),
    XauthOutputTooLarge(usize),
    RemoteDisplayUnavailable,
    AuthCookieMismatch,
    IncompleteSetupPacket,
    SetupPacketTooLarge(usize),
    UnsupportedByteOrder(u8),
    InvalidSetupPacketLength,
}

/// A local X display: `[host]:display[.screen]`.
#[derive(Clone, Debug, PartialEq, Eq)]
pub struct X11Display {
    pub host: String,
    pub display: u16,
    pub screen: u16,
}

/// The value of a run of ASCII digit characters, when it is one.
pub open spec fn chars_number(w: Seq<char>) -> Option<nat> {
    if w.len() > 0 && forall|k: int|
        0 <= k < w.len() ==> 0x30 <= (#[trigger] w[k] as u32) <= 0x39 {
        Some(digits_value(Seq::new(w.len(), |k: int| (w[k] as u32) as u8)))
    } else {
        None
    }
}

/// How a DISPLAY value parses: host, display number and screen (0 when absent).
pub open spec fn spec_parse_display(v: Seq<char>) -> Option<(Seq<char>, u16, u16)> {
    let colon = last_index_of(v, ':');
    if colon < 0 {
        None
    } else {
        let rest = v.subrange(colon + 1, v.len() as int);
        let dot = first_index_of(rest, '.');
        let number = chars_number(rest.subrange(0, dot));
        let screen = if dot == rest.len() {
            Some(0nat)
        } else {
            chars_number(rest.subrange(dot + 1, rest.len() as int))
        };
        match (number, screen) {
            (Some(n), Some(s)) => if n <= u16::MAX && s <= u16::MAX {
                Some((v.subrange(0, colon), n as u16, s as u16))
            } else {
                None
            },
            _ => None,
        }
    }
}

/// Reads the digits of `text` between `from` and `to` as a number of at most
/// 16 bits.
fn parse_u16_chars(text: &str, from: usize, to: usize) -> (r: Option<u16>)
    requires
        from <= to <= text@.len(),
    ensures
        match chars_number(text@.subrange(from as int, to as int)) {
            Some(n) => if n <= u16::MAX {
                r == Some(n as u16)
            } else {
                r is None
            },
            None => r is None,
        },
{
    let ghost w = text@.subrange(from as int, to as int);
    let ghost b = Seq::new(w.len(), |k: int| (w[k] as u32) as u8);
    if from == to {
        return None;
    }
    let mut value: u32 = 0;
    let mut i: usize = from;
    while i < to
        invariant
            from <= i <= to <= text@.len(),
            w == text@.subrange(from as int, to as int),
            b == Seq::new(w.len(), |k: int| (w[k] as u32) as u8),
            forall|k: int| 0 <= k < i - from ==> 0x30 <= (#[trigger] w[k] as u32) <= 0x39,
            value as nat == digits_value(b.subrange(0, i - from)),
            value <= u16::MAX,
        decreases to - i,
    {
        let c = text.get_char(i);
        let u = c as u32;
        assert(w[i - from] == c);
        if u < 0x30 || u > 0x39 {
            return None;
        }
        let digit = u - 0x30;
        proof {
            lemma_digits_value_step(b, i - from);
            lemma_small_u32_as_u8(u);
            assert(b[i - from] == (u as u8));
        }
        let bigger = value * 10 + digit;
        if bigger > 65535 {
            proof {
                if chars_number(w) is Some {
                    assert forall|k: int| 0 <= k < b.len() implies #[trigger] is_ascii_digit(
                        b[k],
                    ) by {
                        assert(0x30 <= (w[k] as u32) <= 0x39);
                        lemma_small_u32_as_u8(w[k] as u32);
                    }
                    lemma_digits_value_monotone(b, i - from + 1);
                }
            }
            return None;
        }
        value = bigger;
        i = i + 1;
    }
    assert(b.subrange(0, i - from) =~= b);
    Some(value as u16)
}

proof fn lemma_small_u32_as_u8(x: u32)
    requires
        x < 256,
    ensures
        (x as u8) as u32 == x,
{
    assert((x as u8) as u32 == x) by (bit_vector)
        requires
            x < 256,
    ;
}

impl X11Display {
    /// Parses a DISPLAY value.
    pub fn parse(value: &str) -> (r: Result<Self, X11ForwardingError>)
        ensures
            value@.len() == 0 ==> r == Err::<Self, X11ForwardingError>(
                X11ForwardingError::EmptyDisplay,
            ),
            value@.len() > 0 ==> match spec_parse_display(value@) {
                Some((host, display, screen)) => r matches Ok(d) && d.host@ == host && d.display
                    == display && d.screen == screen,
                None => r matches Err(X11ForwardingError::InvalidDisplay(s)) && s@ == value@,
            },
    {
        let n = value.unicode_len();
        if n == 0 {
            return Err(X11ForwardingError::EmptyDisplay);
        }
        let mut k: usize = n;
        while k > 0
            invariant
                k <= n == value@.len(),
                forall|j: int| k <= j < n ==> value@[j] != ':',
            ensures
                k <= n == value@.len(),
                forall|j: int| k <= j < n ==> value@[j] != ':',
                k > 0 ==> value@[k - 1] == ':',
            decreases k,
        {
            if value.get_char(k - 1) == ':' {
                break;
            }
            k = k - 1;
        }
        if k == 0 {
            proof {
                lemma_last_index_of(value@, ':', -1);
            }
            return Err(X11ForwardingError::InvalidDisplay(String::from_str(value)));
        }
        let colon = k - 1;
        proof {
            lemma_last_index_of(value@, ':', colon as int);
        }
        let ghost rest = value@.subrange(colon + 1, n as int);
        let mut dot: usize = colon + 1;
        while dot < n
            invariant
                colon + 1 <= dot <= n == value@.len(),
                rest == value@.subrange(colon + 1, n as int),
                forall|j: int| colon + 1 <= j < dot ==> value@[j] != '.',
            ensures
                colon + 1 <= dot <= n == value@.len(),
                rest == value@.subrange(colon + 1, n as int),
                forall|j: int| colon + 1 <= j < dot ==> value@[j] != '.',
                dot < n ==> value@[dot as int] == '.',
            decreases n - dot,
        {
            if value.get_char(dot) == '.' {
                break;
            }
            dot = dot + 1;
        }
        proof {
            assert forall|j: int| 0 <= j < dot - colon - 1 implies rest[j] != '.' by {
                assert(rest[j] == value@[colon + 1 + j]);
            }
            if dot < n {
                assert(rest[dot - colon - 1] == value@[dot as int]);
            }
            lemma_first_index_of(rest, '.', dot - colon - 1);
            assert(rest.subrange(0, dot - colon - 1) =~= value@.subrange(colon + 1, dot as int));
            if dot < n {
                assert(rest.subrange(dot - colon, rest.len() as int) =~= value@.subrange(
                    dot + 1,
                    n as int,
                ));
            }
        }
        let number = parse_u16_chars(value, colon + 1, dot);
        let screen = if dot == n {
            Some(0u16)
        } else {
            parse_u16_chars(value, dot + 1, n)
        };
        match (number, screen) {
            (Some(display), Some(screen)) => Ok(
                X11Display {
                    host: String::from_str(value.substring_char(0, colon)),
                    display,
                    screen,
                },
            ),
            _ => Err(X11ForwardingError::InvalidDisplay(String::from_str(value))),
        }
    }

    /// The DISPLAY the remote side sees for forwarded display `remote_display`:
    /// `localhost:<remote_display>.<screen>`.
    pub fn remote_display_value(&self, remote_display: u16) -> (r: String)
        ensures
            r@ == seq!['l', 'o', 'c', 'a', 'l', 'h', 'o', 's', 't', ':'] + decimal_chars(
                remote_display as nat,
            ) + seq!['.'] + decimal_chars(self.screen as nat),
    {
        proof {
            reveal_strlit("localhost:");
            reveal_strlit(".");
        }
        let mut text = String::from_str("localhost:");
        push_decimal(&mut text, remote_display as u64);
        text.append(".");
        push_decimal(&mut text, self.screen as u64);
        text
    }
}

/// What a session needs to request X11 forwarding.
#[derive(Clone, Debug, PartialEq, Eq)]
pub struct X11ForwardConfig {
    pub local_display: X11Display,
    pub remote_display: u16,
    pub single_connection: bool,
    pub policy: X11ForwardPolicy,
}

impl X11ForwardConfig {
    /// Forwarding of `local_display` as remote display 10, for any number of
    /// connections, under the default policy.
    pub fn new(local_display: X11Display) -> (r: Self)
        ensures
            r.local_display == local_display,
            r.remote_display == 10,
            !r.single_connection,
            r.policy == default_policy(),
    {
        X11ForwardConfig {
            local_display,
            remote_display: 10,
            single_connection: false,
            policy: X11ForwardPolicy::default(),
        }
    }

    /// The DISPLAY value set on the remote side.
    pub fn remote_display_value(&self) -> (r: String)
        ensures
            r@ == seq!['l', 'o', 'c', 'a', 'l', 'h', 'o', 's', 't', ':'] + decimal_chars(
                self.remote_display as nat,
            ) + seq!['.'] + decimal_chars(self.local_display.screen as nat),
    {
        self.local_display.remote_display_value(self.remote_display)
    }

    /// The same configuration under `policy`.
    pub fn with_policy(self, policy: X11ForwardPolicy) -> (r: Self)
        ensures
            r == (X11ForwardConfig { policy, ..self }),
    {
        let mut config = self;
        config.policy = policy;
        config
    }
}

} // verus!
