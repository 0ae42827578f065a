//! The wire-level proof envelopes: three competing JSON shapes, encoded as
//! compact text and carried hex-encoded. The grammar is specified exactly at
//! the character level; parsing and building are verified against it.

use vstd::prelude::*;
use crate::text::{is_digit, dec_val, dec_chars, parse_u64, str_to_chars};

verus! {

// ---------------------------------------------------------------------------
// Literal segments of the compact envelope text.
// ---------------------------------------------------------------------------

pub open spec fn l_pi_open() -> Seq<char> {
    "{\"pi_a\":[\""@
}

pub open spec fn l_cq() -> Seq<char> {
    "\",\""@
}

pub open spec fn l_pib() -> Seq<char> {
    "\"],\"pi_b\":[[\""@
}

pub open spec fn l_mid() -> Seq<char> {
    "\"],[\""@
}

pub open spec fn l_pic() -> Seq<char> {
    "\"]],\"pi_c\":[\""@
}

pub open spec fn l_root() -> Seq<char> {
    "\"],\"smt_root\":\""@
}

pub open spec fn l_user() -> Seq<char> {
    "\",\"username\":\""@
}

pub open spec fn l_pk() -> Seq<char> {
    "\",\"public_key\":"@
}

pub open spec fn l_sv() -> Seq<char> {
    ",\"secret_value\":"@
}

pub open spec fn l_nonce() -> Seq<char> {
    ",\"nonce\":"@
}

pub open spec fn l_sib() -> Seq<char> {
    ",\"siblings\":["@
}

pub open spec fn l_comma() -> Seq<char> {
    ","@
}

pub open spec fn l_end() -> Seq<char> {
    "]}"@
}

pub open spec fn l_key() -> Seq<char> {
    "\",\"key\":"@
}

pub open spec fn l_value() -> Seq<char> {
    ",\"value\":"@
}

pub open spec fn l_proof() -> Seq<char> {
    "{\"proof\":"@
}

pub open spec fn l_signals() -> Seq<char> {
    "\"]},\"public_signals\":[\""@
}

pub open spec fn l_sig_end() -> Seq<char> {
    "\"]}"@
}

// ---------------------------------------------------------------------------
// Elementary parsing steps, at the specification level.
// ---------------------------------------------------------------------------

/// Whether the literal `l` stands at position `i` of `s`.
pub open spec fn match_lit(s: Seq<char>, i: int, l: Seq<char>) -> bool {
    0 <= i && i + l.len() <= s.len() && s.subrange(i, i + l.len()) == l
}

/// The position of the first double quote at or after `i`.
pub open spec fn scan_quote(s: Seq<char>, i: int) -> Option<int>
    decreases s.len() - i,
{
    if i < 0 || i >= s.len() {
        None
    } else if s[i] == '"' {
        Some(i)
    } else {
        scan_quote(s, i + 1)
    }
}

/// Take the characters up to the next double quote, stopping at that quote:
/// the literal that follows a string in the grammar begins with it.
pub open spec fn take_string(s: Seq<char>, i: int) -> Option<(Seq<char>, int)> {
    match scan_quote(s, i) {
        None => None,
        Some(j) => Some((s.subrange(i, j), j)),
    }
}

/// The position of the first non-digit at or after `i`.
pub open spec fn digits_end(s: Seq<char>, i: int) -> int
    decreases s.len() - i,
{
    if i < 0 || i >= s.len() {
        i
    } else if is_digit(s[i]) {
        digits_end(s, i + 1)
    } else {
        i
    }
}

/// Take a JSON unsigned number: at least one digit, no leading zero unless
/// the number is exactly "0", and within 64-bit range.
pub open spec fn take_u64(s: Seq<char>, i: int) -> Option<(u64, int)> {
    let j = digits_end(s, i);
    if i < 0 || j <= i {
        None
    } else if s[i] == '0' && j > i + 1 {
        None
    } else if dec_val(s.subrange(i, j)) > u64::MAX {
        None
    } else {
        Some((dec_val(s.subrange(i, j)) as u64, j))
    }
}

/// A literal followed by a quoted string.
pub open spec fn lit_string(s: Seq<char>, i: int, l: Seq<char>) -> Option<(Seq<char>, int)> {
    if match_lit(s, i, l) {
        take_string(s, i + l.len())
    } else {
        None
    }
}

/// A literal followed by a number.
pub open spec fn lit_u64(s: Seq<char>, i: int, l: Seq<char>) -> Option<(u64, int)> {
    if match_lit(s, i, l) {
        take_u64(s, i + l.len())
    } else {
        None
    }
}

// ---------------------------------------------------------------------------
// The envelope shapes.
// ---------------------------------------------------------------------------

/// The eight placeholder proof-system strings, in ghost form.
pub struct PiSpec {
    pub a0: Seq<char>,
    pub a1: Seq<char>,
    pub b00: Seq<char>,
    pub b01: Seq<char>,
    pub b10: Seq<char>,
    pub b11: Seq<char>,
    pub c0: Seq<char>,
    pub c1: Seq<char>,
}

/// The eight placeholder proof-system strings.
pub struct Pi {
    pub a0: Vec<char>,
    pub a1: Vec<char>,
    pub b00: Vec<char>,
    pub b01: Vec<char>,
    pub b10: Vec<char>,
    pub b11: Vec<char>,
    pub c0: Vec<char>,
    pub c1: Vec<char>,
}

impl View for Pi {
    type V = PiSpec;

    open spec fn view(&self) -> PiSpec {
        PiSpec {
            a0: self.a0@,
            a1: self.a1@,
            b00: self.b00@,
            b01: self.b01@,
            b10: self.b10@,
            b11: self.b11@,
            c0: self.c0@,
            c1: self.c1@,
        }
    }
}

/// The username-keyed envelope, in ghost form.
pub struct UserEnvelopeSpec {
    pub pi: PiSpec,
    pub smt_root: Seq<char>,
    pub username: Seq<char>,
    pub public_key: u64,
    pub secret_value: u64,
    pub nonce: u64,
    pub sib0: u64,
    pub sib1: u64,
    pub sib2: u64,
}

/// The username-keyed envelope.
pub struct UserEnvelope {
    pub pi: Pi,
    pub smt_root: Vec<char>,
    pub username: Vec<char>,
    pub public_key: u64,
    pub secret_value: u64,
    pub nonce: u64,
    pub sib0: u64,
    pub sib1: u64,
    pub sib2: u64,
}

impl View for UserEnvelope {
    type V = UserEnvelopeSpec;

    open spec fn view(&self) -> UserEnvelopeSpec {
        UserEnvelopeSpec {
            pi: self.pi@,
            smt_root: self.smt_root@,
            username: self.username@,
            public_key: self.public_key,
            secret_value: self.secret_value,
            nonce: self.nonce,
            sib0: self.sib0,
            sib1: self.sib1,
            sib2: self.sib2,
        }
    }
}

/// The keyed-numeric envelope, in ghost form.
pub struct KeyedEnvelopeSpec {
    pub pi: PiSpec,
    pub smt_root: Seq<char>,
    pub key: u64,
    pub value: u64,
    pub sib0: u64,
    pub sib1: u64,
    pub sib2: u64,
}

/// The keyed-numeric envelope.
pub struct KeyedEnvelope {
    pub pi: Pi,
    pub smt_root: Vec<char>,
    pub key: u64,
    pub value: u64,
    pub sib0: u64,
    pub sib1: u64,
    pub sib2: u64,
}

impl View for KeyedEnvelope {
    type V = KeyedEnvelopeSpec;

    open spec fn view(&self) -> KeyedEnvelopeSpec {
        KeyedEnvelopeSpec {
            pi: self.pi@,
            smt_root: self.smt_root@,
            key: self.key,
            value: self.value,
            sib0: self.sib0,
            sib1: self.sib1,
            sib2: self.sib2,
        }
    }
}

/// The signal-based envelope, in ghost form: two public signals.
pub struct SignalEnvelopeSpec {
    pub pi: PiSpec,
    pub signal0: Seq<char>,
    pub signal1: Seq<char>,
}

/// The signal-based envelope: two public signals.
pub struct SignalEnvelope {
    pub pi: Pi,
    pub signal0: Vec<char>,
    pub signal1: Vec<char>,
}

impl View for SignalEnvelope {
    type V = SignalEnvelopeSpec;

    open spec fn view(&self) -> SignalEnvelopeSpec {
        SignalEnvelopeSpec { pi: self.pi@, signal0: self.signal0@, signal1: self.signal1@ }
    }
}

/// A decoded flat envelope: one of the two shapes the membership verifier
/// accepts, decided once at decode time.
pub enum Envelope {
    User(UserEnvelope),
    Keyed(KeyedEnvelope),
}

/// A decoded flat envelope, in ghost form.
pub enum EnvelopeSpec {
    User(UserEnvelopeSpec),
    Keyed(KeyedEnvelopeSpec),
}

impl View for Envelope {
    type V = EnvelopeSpec;

    open spec fn view(&self) -> EnvelopeSpec {
        match self {
            Envelope::User(e) => EnvelopeSpec::User(e@),
            Envelope::Keyed(e) => EnvelopeSpec::Keyed(e@),
        }
    }
}

// ---------------------------------------------------------------------------
// The grammar, at the specification level.
// ---------------------------------------------------------------------------

/// Parse the shared proof-system block, from the opening brace through the
/// last `pi_c` string (its closing quote consumed).
pub open spec fn spec_parse_pi(s: Seq<char>, i: int) -> Option<(PiSpec, int)> {
    match lit_string(s, i, l_pi_open()) {
        None => None,
        Some((a0, i)) => match lit_string(s, i, l_cq()) {
            None => None,
            Some((a1, i)) => match lit_string(s, i, l_pib()) {
                None => None,
                Some((b00, i)) => match lit_string(s, i, l_cq()) {
                    None => None,
                    Some((b01, i)) => match lit_string(s, i, l_mid()) {
                        None => None,
                        Some((b10, i)) => match lit_string(s, i, l_cq()) {
                            None => None,
                            Some((b11, i)) => match lit_string(s, i, l_pic()) {
                                None => None,
                                Some((c0, i)) => match lit_string(s, i, l_cq()) {
                                    None => None,
                                    Some((c1, i)) => Some(
                                        (PiSpec { a0, a1, b00, b01, b10, b11, c0, c1 }, i),
                                    ),
                                },
                            },
                        },
                    },
                },
            },
        },
    }
}

/// Parse the tail of a username-keyed envelope, after the shared root field.
pub open spec fn spec_parse_user_tail(s: Seq<char>, i: int, pi: PiSpec, smt_root: Seq<char>) -> Option<
    UserEnvelopeSpec,
> {
    match lit_string(s, i, l_user()) {
        None => None,
        Some((username, i)) => match lit_u64(s, i, l_pk()) {
            None => None,
            Some((public_key, i)) => match lit_u64(s, i, l_sv()) {
                None => None,
                Some((secret_value, i)) => match lit_u64(s, i, l_nonce()) {
                    None => None,
                    Some((nonce, i)) => match lit_u64(s, i, l_sib()) {
                        None => None,
                        Some((sib0, i)) => match lit_u64(s, i, l_comma()) {
                            None => None,
                            Some((sib1, i)) => match lit_u64(s, i, l_comma()) {
                                None => None,
                                Some((sib2, i)) => if match_lit(s, i, l_end()) && i
                                    + l_end().len() == s.len() {
                                    Some(
                                        UserEnvelopeSpec {
                                            pi,
                                            smt_root,
                                            username,
                                            public_key,
                                            secret_value,
                                            nonce,
                                            sib0,
                                            sib1,
                                            sib2,
                                        },
                                    )
                                } else {
                                    None
                                },
                            },
                        },
                    },
                },
            },
        },
    }
}

/// Parse the tail of a keyed-numeric envelope, after the shared root field.
pub open spec fn spec_parse_keyed_tail(s: Seq<char>, i: int, pi: PiSpec, smt_root: Seq<char>) -> Option<
    KeyedEnvelopeSpec,
> {
    match lit_u64(s, i, l_key()) {
        None => None,
        Some((key, i)) => match lit_u64(s, i, l_value()) {
            None => None,
            Some((value, i)) => match lit_u64(s, i, l_sib()) {
                None => None,
                Some((sib0, i)) => match lit_u64(s, i, l_comma()) {
                    None => None,
                    Some((sib1, i)) => match lit_u64(s, i, l_comma()) {
                        None => None,
                        Some((sib2, i)) => if match_lit(s, i, l_end()) && i + l_end().len()
                            == s.len() {
                            Some(KeyedEnvelopeSpec { pi, smt_root, key, value, sib0, sib1, sib2 })
                        } else {
                            None
                        },
                    },
                },
            },
        },
    }
}

/// Parse a whole flat envelope: the shared proof-system block and root, then
/// one of the two tails, decided by the field name that follows.
pub open spec fn spec_parse_envelope(s: Seq<char>) -> Option<EnvelopeSpec> {
    match spec_parse_pi(s, 0) {
        None => None,
        Some((pi, i)) => match lit_string(s, i, l_root()) {
            None => None,
            Some((smt_root, i)) => if match_lit(s, i, l_user()) {
                match spec_parse_user_tail(s, i, pi, smt_root) {
                    None => None,
                    Some(e) => Some(EnvelopeSpec::User(e)),
                }
            } else {
                match spec_parse_keyed_tail(s, i, pi, smt_root) {
                    None => None,
                    Some(e) => Some(EnvelopeSpec::Keyed(e)),
                }
            },
        },
    }
}

/// Parse a signal-based envelope: a nested proof-system object followed by
/// exactly two public signals.
pub open spec fn spec_parse_signal(s: Seq<char>) -> Option<SignalEnvelopeSpec> {
    if !match_lit(s, 0, l_proof()) {
        None
    } else {
        match spec_parse_pi(s, l_proof().len() as int) {
            None => None,
            Some((pi, i)) => match lit_string(s, i, l_signals()) {
                None => None,
                Some((signal0, i)) => match lit_string(s, i, l_cq()) {
                    None => None,
                    Some((signal1, i)) => if match_lit(s, i, l_sig_end()) && i + l_sig_end().len()
                        == s.len() {
                        Some(SignalEnvelopeSpec { pi, signal0, signal1 })
                    } else {
                        None
                    },
                },
            },
        }
    }
}

// ---------------------------------------------------------------------------
// The encoders, at the specification level.
// ---------------------------------------------------------------------------

/// The compact text of the shared proof-system block.
pub open spec fn enc_pi(p: PiSpec) -> Seq<char> {
    l_pi_open() + p.a0 + l_cq() + p.a1 + l_pib() + p.b00 + l_cq() + p.b01 + l_mid() + p.b10 + l_cq()
        + p.b11 + l_pic() + p.c0 + l_cq() + p.c1
}

/// The compact text of a username-keyed envelope.
pub open spec fn enc_user(e: UserEnvelopeSpec) -> Seq<char> {
    enc_pi(e.pi) + l_root() + e.smt_root + l_user() + e.username + l_pk() + dec_chars(
        e.public_key as nat,
    ) + l_sv() + dec_chars(e.secret_value as nat) + l_nonce() + dec_chars(e.nonce as nat) + l_sib()
        + dec_chars(e.sib0 as nat) + l_comma() + dec_chars(e.sib1 as nat) + l_comma() + dec_chars(
        e.sib2 as nat,
    ) + l_end()
}

/// The compact text of a keyed-numeric envelope.
pub open spec fn enc_keyed(e: KeyedEnvelopeSpec) -> Seq<char> {
    enc_pi(e.pi) + l_root() + e.smt_root + l_key() + dec_chars(e.key as nat) + l_value()
        + dec_chars(e.value as nat) + l_sib() + dec_chars(e.sib0 as nat) + l_comma() + dec_chars(
        e.sib1 as nat,
    ) + l_comma() + dec_chars(e.sib2 as nat) + l_end()
}

// ---------------------------------------------------------------------------
// Elementary parsing steps, executable.
// ---------------------------------------------------------------------------

/// Whether the literal stands at position `i`; on a match, the position just
/// after it.
pub fn expect_lit(s: &Vec<char>, i: usize, lit: &Vec<char>) -> (r: Option<usize>)
    requires
        i <= s@.len(),
    ensures
        r is Some <==> match_lit(s@, i as int, lit@),
        r is Some ==> r->0 == i + lit@.len(),
{
    let n = s.len();
    if n - i < lit.len() {
        proof {
            assert(!match_lit(s@, i as int, lit@));
        }
        return None;
    }
    let mut k: usize = 0;
    while k < lit.len()
        invariant
            0 <= k <= lit@.len(),
            n == s@.len(),
            i + lit@.len() <= n,
            forall|j: int| 0 <= j < k ==> s@[i + j] == lit@[j],
        decreases lit@.len() - k,
    {
        if s[i + k] != lit[k] {
            proof {
                assert(s@.subrange(i as int, i + lit@.len())[k as int] != lit@[k as int]);
            }
            return None;
        }
        k = k + 1;
    }
    proof {
        assert(s@.subrange(i as int, i + lit@.len()) =~= lit@);
    }
    Some(i + lit.len())
}

/// Take the characters up to the next double quote, stopping at that quote.
pub fn take_string_exec(s: &Vec<char>, i: usize) -> (r: Option<(Vec<char>, usize)>)
    requires
        i <= s@.len(),
    ensures
        r is Some <==> take_string(s@, i as int) is Some,
        r is Some ==> {
            &&& (r->0).0@ == (take_string(s@, i as int)->0).0
            &&& (r->0).1 == (take_string(s@, i as int)->0).1
            &&& i <= (r->0).1 <= s@.len()
        },
{
    let mut j: usize = i;
    while j < s.len() && s[j] != '"'
        invariant
            i <= j <= s@.len(),
            scan_quote(s@, i as int) == scan_quote(s@, j as int),
        decreases s@.len() - j,
    {
        j = j + 1;
    }
    if j == s.len() {
        proof {
            assert(scan_quote(s@, j as int) is None);
        }
        return None;
    }
    proof {
        assert(scan_quote(s@, j as int) == Some(j as int));
    }
    let mut out: Vec<char> = Vec::new();
    let mut k: usize = i;
    while k < j
        invariant
            i <= k <= j <= s@.len(),
            out@ =~= s@.subrange(i as int, k as int),
        decreases j - k,
    {
        out.push(s[k]);
        k = k + 1;
    }
    proof {
        assert(out@ =~= s@.subrange(i as int, j as int));
    }
    Some((out, j))
}

/// Take a JSON unsigned number.
pub fn take_u64_exec(s: &Vec<char>, i: usize) -> (r: Option<(u64, usize)>)
    requires
        i <= s@.len(),
    ensures
        r is Some <==> take_u64(s@, i as int) is Some,
        r is Some ==> {
            &&& (r->0).0 == (take_u64(s@, i as int)->0).0
            &&& (r->0).1 == (take_u64(s@, i as int)->0).1
            &&& i <= (r->0).1 <= s@.len()
        },
{
    let mut j: usize = i;
    while j < s.len() && '0' <= s[j] && s[j] <= '9'
        invariant
            i <= j <= s@.len(),
            digits_end(s@, i as int) == digits_end(s@, j as int),
            forall|k: int| i <= k < j ==> is_digit(#[trigger] s@[k]),
        decreases s@.len() - j,
    {
        j = j + 1;
    }
    proof {
        assert(digits_end(s@, j as int) == j);
        assert(digits_end(s@, i as int) == j);
    }
    if j == i {
        return None;
    }
    if s[i] == '0' && j > i + 1 {
        return None;
    }
    let mut sub: Vec<char> = Vec::new();
    let mut k: usize = i;
    while k < j
        invariant
            i <= k <= j <= s@.len(),
            sub@ =~= s@.subrange(i as int, k as int),
        decreases j - k,
    {
        sub.push(s[k]);
        k = k + 1;
    }
    proof {
        assert(sub@ =~= s@.subrange(i as int, j as int));
        assert(sub@.len() > 0);
        assert(forall|k: int| 0 <= k < sub@.len() ==> is_digit(#[trigger] sub@[k]));
        assert(sub@[0] != '+');
    }
    match parse_u64(&sub) {
        Some(v) => Some((v, j)),
        None => {
            proof {
                assert(dec_val(sub@) > u64::MAX);
            }
            None
        },
    }
}

// ---------------------------------------------------------------------------
// Composite parsing steps, executable.
// ---------------------------------------------------------------------------

/// A literal followed by a quoted string.
fn lit_string_exec(s: &Vec<char>, i: usize, lit: &Vec<char>) -> (r: Option<(Vec<char>, usize)>)
    requires
        i <= s@.len(),
    ensures
        r is Some <==> lit_string(s@, i as int, lit@) is Some,
        r is Some ==> {
            &&& (r->0).0@ == (lit_string(s@, i as int, lit@)->0).0
            &&& (r->0).1 == (lit_string(s@, i as int, lit@)->0).1
            &&& i <= (r->0).1 <= s@.len()
        },
{
    match expect_lit(s, i, lit) {
        None => None,
        Some(j) => take_string_exec(s, j),
    }
}

/// A literal followed by a number.
fn lit_u64_exec(s: &Vec<char>, i: usize, lit: &Vec<char>) -> (r: Option<(u64, usize)>)
    requires
        i <= s@.len(),
    ensures
        r is Some <==> lit_u64(s@, i as int, lit@) is Some,
        r is Some ==> {
            &&& (r->0).0 == (lit_u64(s@, i as int, lit@)->0).0
            &&& (r->0).1 == (lit_u64(s@, i as int, lit@)->0).1
            &&& i <= (r->0).1 <= s@.len()
        },
{
    match expect_lit(s, i, lit) {
        None => None,
        Some(j) => take_u64_exec(s, j),
    }
}

/// Parse the shared proof-system block.
fn parse_pi(s: &Vec<char>, i: usize) -> (r: Option<(Pi, usize)>)
    requires
        i <= s@.len(),
    ensures
        r is Some <==> spec_parse_pi(s@, i as int) is Some,
        r is Some ==> {
            &&& (r->0).0@ == (spec_parse_pi(s@, i as int)->0).0
            &&& (r->0).1 == (spec_parse_pi(s@, i as int)->0).1
            &&& i <= (r->0).1 <= s@.len()
        },
{
    let lit_open = str_to_chars("{\"pi_a\":[\"");
    let lit_cq = str_to_chars("\",\"");
    let lit_pib = str_to_chars("\"],\"pi_b\":[[\"");
    let lit_mid = str_to_chars("\"],[\"");
    let lit_pic = str_to_chars("\"]],\"pi_c\":[\"");
    let (a0, i) = match lit_string_exec(s, i, &lit_open) {
        None => {
            return None;
        },
        Some(p) => p,
    };
    let (a1, i) = match lit_string_exec(s, i, &lit_cq) {
        None => {
            return None;
        },
        Some(p) => p,
    };
    let (b00, i) = match lit_string_exec(s, i, &lit_pib) {
        None => {
            return None;
        },
        Some(p) => p,
    };
    let (b01, i) = match lit_string_exec(s, i, &lit_cq) {
        None => {
            return None;
        },
        Some(p) => p,
    };
    let (b10, i) = match lit_string_exec(s, i, &lit_mid) {
        None => {
            return None;
        },
        Some(p) => p,
    };
    let (b11, i) = match lit_string_exec(s, i, &lit_cq) {
        None => {
            return None;
        },
        Some(p) => p,
    };
    let (c0, i) = match lit_string_exec(s, i, &lit_pic) {
        None => {
            return None;
        },
        Some(p) => p,
    };
    let (c1, i) = match lit_string_exec(s, i, &lit_cq) {
        None => {
            return None;
        },
        Some(p) => p,
    };
    Some((Pi { a0, a1, b00, b01, b10, b11, c0, c1 }, i))
}

/// Parse a whole flat envelope from its text: the shape is decided once, by
/// the field name that follows the shared root field.
pub fn parse_envelope(s: &Vec<char>) -> (r: Option<Envelope>)
    ensures
        r is Some <==> spec_parse_envelope(s@) is Some,
        r is Some ==> r->0@ == spec_parse_envelope(s@)->0,
{
    let (pi, i) = match parse_pi(s, 0) {
        None => {
            return None;
        },
        Some(p) => p,
    };
    let lit_root = str_to_chars("\"],\"smt_root\":\"");
    let (smt_root, i) = match lit_string_exec(s, i, &lit_root) {
        None => {
            return None;
        },
        Some(p) => p,
    };
    let lit_user = str_to_chars("\",\"username\":\"");
    let is_user = match expect_lit(s, i, &lit_user) {
        Some(_) => true,
        None => false,
    };
    if is_user {
        let (username, i) = match lit_string_exec(s, i, &lit_user) {
            None => {
                return None;
            },
            Some(p) => p,
        };
        let lit_pk = str_to_chars("\",\"public_key\":");
        let (public_key, i) = match lit_u64_exec(s, i, &lit_pk) {
            None => {
                return None;
            },
            Some(p) => p,
        };
        let lit_sv = str_to_chars(",\"secret_value\":");
        let (secret_value, i) = match lit_u64_exec(s, i, &lit_sv) {
            None => {
                return None;
            },
            Some(p) => p,
        };
        let lit_nonce = str_to_chars(",\"nonce\":");
        let (nonce, i) = match lit_u64_exec(s, i, &lit_nonce) {
            None => {
                return None;
            },
            Some(p) => p,
        };
        let lit_sib = str_to_chars(",\"siblings\":[");
        let (sib0, i) = match lit_u64_exec(s, i, &lit_sib) {
            None => {
                return None;
            },
            Some(p) => p,
        };
        let lit_comma = str_to_chars(",");
        let (sib1, i) = match lit_u64_exec(s, i, &lit_comma) {
            None => {
                return None;
            },
            Some(p) => p,
        };
        let (sib2, i) = match lit_u64_exec(s, i, &lit_comma) {
            None => {
                return None;
            },
            Some(p) => p,
        };
        let lit_close = str_to_chars("]}");
        let end = match expect_lit(s, i, &lit_close) {
            None => {
                return None;
            },
            Some(e) => e,
        };
        if end != s.len() {
            return None;
        }
        Some(
            Envelope::User(
                UserEnvelope {
                    pi,
                    smt_root,
                    username,
                    public_key,
                    secret_value,
                    nonce,
                    sib0,
                    sib1,
                    sib2,
                },
            ),
        )
    } else {
        let lit_key = str_to_chars("\",\"key\":");
        let (key, i) = match lit_u64_exec(s, i, &lit_key) {
            None => {
                return None;
            },
            Some(p) => p,
        };
        let lit_value = str_to_chars(",\"value\":");
        let (value, i) = match lit_u64_exec(s, i, &lit_value) {
            None => {
                return None;
            },
            Some(p) => p,
        };
        let lit_sib = str_to_chars(",\"siblings\":[");
        let (sib0, i) = match lit_u64_exec(s, i, &lit_sib) {
            None => {
                return None;
            },
            Some(p) => p,
        };
        let lit_comma = str_to_chars(",");
        let (sib1, i) = match lit_u64_exec(s, i, &lit_comma) {
            None => {
                return None;
            },
            Some(p) => p,
        };
        let (sib2, i) = match lit_u64_exec(s, i, &lit_comma) {
            None => {
                return None;
            },
            Some(p) => p,
        };
        let lit_close = str_to_chars("]}");
        let end = match expect_lit(s, i, &lit_close) {
            None => {
                return None;
            },
            Some(e) => e,
        };
        if end != s.len() {
            return None;
        }
        Some(Envelope::Keyed(KeyedEnvelope { pi, smt_root, key, value, sib0, sib1, sib2 }))
    }
}

/// Parse a signal-based envelope from its text.
pub fn parse_signal_envelope(s: &Vec<char>) -> (r: Option<SignalEnvelope>)
    ensures
        r is Some <==> spec_parse_signal(s@) is Some,
        r is Some ==> r->0@ == spec_parse_signal(s@)->0,
{
    let lit_proof = str_to_chars("{\"proof\":");
    let start = match expect_lit(s, 0, &lit_proof) {
        None => {
            return None;
        },
        Some(j) => j,
    };
    let (pi, i) = match parse_pi(s, start) {
        None => {
            return None;
        },
        Some(p) => p,
    };
    let lit_signals = str_to_chars("\"]},\"public_signals\":[\"");
    let (signal0, i) = match lit_string_exec(s, i, &lit_signals) {
        None => {
            return None;
        },
        Some(p) => p,
    };
    let lit_cq = str_to_chars("\",\"");
    let (signal1, i) = match lit_string_exec(s, i, &lit_cq) {
        None => {
            return None;
        },
        Some(p) => p,
    };
    let lit_close = str_to_chars("\"]}");
    let end = match expect_lit(s, i, &lit_close) {
        None => {
            return None;
        },
        Some(e) => e,
    };
    if end != s.len() {
        return None;
    }
    Some(SignalEnvelope { pi, signal0, signal1 })
}

// ---------------------------------------------------------------------------
// Building envelope text.
// ---------------------------------------------------------------------------

/// Append a literal to the text being built.
pub fn push_lit(out: &mut Vec<char>, lit: &str)
    ensures
        final(out)@ == old(out)@ + lit@,
{
    let v = str_to_chars(lit);
    out.extend_from_slice(v.as_slice());
    proof {
        assert(final(out)@ =~= old(out)@ + lit@);
    }
}

/// Append a character vector to the text being built.
pub fn push_piece(out: &mut Vec<char>, piece: &Vec<char>)
    ensures
        final(out)@ == old(out)@ + piece@,
{
    out.extend_from_slice(piece.as_slice());
    proof {
        assert(final(out)@ =~= old(out)@ + piece@);
    }
}

/// Append a number in decimal to the text being built.
pub fn push_u64(out: &mut Vec<char>, n: u64)
    ensures
        final(out)@ == old(out)@ + dec_chars(n as nat),
{
    let v = crate::text::u64_to_dec_chars(n);
    out.extend_from_slice(v.as_slice());
    proof {
        assert(final(out)@ =~= old(out)@ + dec_chars(n as nat));
    }
}

/// A character vector followed by a literal.
pub fn concat_chars(a: &Vec<char>, lit: &str) -> (r: Vec<char>)
    ensures
        r@ == a@ + lit@,
{
    let mut out: Vec<char> = Vec::new();
    push_piece(&mut out, a);
    push_lit(&mut out, lit);
    proof {
        assert(out@ =~= a@ + lit@);
    }
    out
}

/// The compact text of a username-keyed envelope.
pub fn build_user_envelope(e: &UserEnvelope) -> (r: Vec<char>)
    ensures
        r@ == enc_user(e@),
{
    let mut out: Vec<char> = Vec::new();
    push_lit(&mut out, "{\"pi_a\":[\"");
    push_piece(&mut out, &e.pi.a0);
    push_lit(&mut out, "\",\"");
    push_piece(&mut out, &e.pi.a1);
    push_lit(&mut out, "\"],\"pi_b\":[[\"");
    push_piece(&mut out, &e.pi.b00);
    push_lit(&mut out, "\",\"");
    push_piece(&mut out, &e.pi.b01);
    push_lit(&mut out, "\"],[\"");
    push_piece(&mut out, &e.pi.b10);
    push_lit(&mut out, "\",\"");
    push_piece(&mut out, &e.pi.b11);
    push_lit(&mut out, "\"]],\"pi_c\":[\"");
    push_piece(&mut out, &e.pi.c0);
    push_lit(&mut out, "\",\"");
    push_piece(&mut out, &e.pi.c1);
    push_lit(&mut out, "\"],\"smt_root\":\"");
    push_piece(&mut out, &e.smt_root);
    push_lit(&mut out, "\",\"username\":\"");
    push_piece(&mut out, &e.username);
    push_lit(&mut out, "\",\"public_key\":");
    push_u64(&mut out, e.public_key);
    push_lit(&mut out, ",\"secret_value\":");
    push_u64(&mut out, e.secret_value);
    push_lit(&mut out, ",\"nonce\":");
    push_u64(&mut out, e.nonce);
    push_lit(&mut out, ",\"siblings\":[");
    push_u64(&mut out, e.sib0);
    push_lit(&mut out, ",");
    push_u64(&mut out, e.sib1);
    push_lit(&mut out, ",");
    push_u64(&mut out, e.sib2);
    push_lit(&mut out, "]}");
    proof {
        assert(out@ =~= enc_user(e@));
    }
    out
}

/// The compact text of a keyed-numeric envelope.
pub fn build_keyed_envelope(e: &KeyedEnvelope) -> (r: Vec<char>)
    ensures
        r@ == enc_keyed(e@),
{
    let mut out: Vec<char> = Vec::new();
    push_lit(&mut out, "{\"pi_a\":[\"");
    push_piece(&mut out, &e.pi.a0);
    push_lit(&mut out, "\",\"");
    push_piece(&mut out, &e.pi.a1);
    push_lit(&mut out, "\"],\"pi_b\":[[\"");
    push_piece(&mut out, &e.pi.b00);
    push_lit(&mut out, "\",\"");
    push_piece(&mut out, &e.pi.b01);
    push_lit(&mut out, "\"],[\"");
    push_piece(&mut out, &e.pi.b10);
    push_lit(&mut out, "\",\"");
    push_piece(&mut out, &e.pi.b11);
    push_lit(&mut out, "\"]],\"pi_c\":[\"");
    push_piece(&mut out, &e.pi.c0);
    push_lit(&mut out, "\",\"");
    push_piece(&mut out, &e.pi.c1);
    push_lit(&mut out, "\"],\"smt_root\":\"");
    push_piece(&mut out, &e.smt_root);
    push_lit(&mut out, "\",\"key\":");
    push_u64(&mut out, e.key);
    push_lit(&mut out, ",\"value\":");
    push_u64(&mut out, e.value);
    push_lit(&mut out, ",\"siblings\":[");
    push_u64(&mut out, e.sib0);
    push_lit(&mut out, ",");
    push_u64(&mut out, e.sib1);
    push_lit(&mut out, ",");
    push_u64(&mut out, e.sib2);
    push_lit(&mut out, "]}");
    proof {
        assert(out@ =~= enc_keyed(e@));
    }
    out
}

// ---------------------------------------------------------------------------
// The grammar is the inverse of the encoders.
// ---------------------------------------------------------------------------

/// The first quote at or after `i` is the one at `j`.
proof fn lemma_scan_quote_at(s: Seq<char>, i: int, j: int)
    requires
        0 <= i <= j < s.len(),
        forall|k: int| i <= k < j ==> s[k] != '"',
        s[j] == '"',
    ensures
        scan_quote(s, i) == Some(j),
    decreases j - i,
{
    if i < j {
        lemma_scan_quote_at(s, i + 1, j);
    }
}

/// The first non-digit at or after `i` is at `j`.
proof fn lemma_digits_end_at(s: Seq<char>, i: int, j: int)
    requires
        0 <= i <= j <= s.len(),
        forall|k: int| i <= k < j ==> is_digit(s[k]),
        j < s.len() ==> !is_digit(s[j]),
    ensures
        digits_end(s, i) == j,
    decreases j - i,
{
    if i < j {
        lemma_digits_end_at(s, i + 1, j);
    }
}

/// Where the text holds the literal, then a quote-free field, then a quote,
/// the literal-and-string step takes exactly that field.
proof fn lemma_lit_string_step(s: Seq<char>, i: int, l: Seq<char>, fld: Seq<char>)
    requires
        0 <= i,
        i + l.len() + fld.len() < s.len(),
        s.subrange(i, i + l.len()) == l,
        s.subrange(i + l.len(), i + l.len() + fld.len()) == fld,
        forall|k: int| 0 <= k < fld.len() ==> fld[k] != '"',
        s[i + l.len() + fld.len()] == '"',
    ensures
        lit_string(s, i, l) == Some((fld, i + l.len() + fld.len())),
{
    assert(match_lit(s, i, l));
    let p = i + l.len();
    let q = p + fld.len();
    assert forall|k: int| p <= k < q implies s[k] != '"' by {
        assert(s.subrange(p, q)[k - p] == s[k]);
    }
    lemma_scan_quote_at(s, p, q);
    assert(take_string(s, p) == Some((s.subrange(p, q), q)));
}

/// Where the text holds the literal, then a number's decimal rendering, then
/// something other than a digit, the literal-and-number step takes exactly
/// that number.
proof fn lemma_lit_u64_step(s: Seq<char>, i: int, l: Seq<char>, n: u64)
    requires
        0 <= i,
        s.subrange(i, i + l.len()) == l,
        i + l.len() + dec_chars(n as nat).len() <= s.len(),
        s.subrange(i + l.len(), i + l.len() + dec_chars(n as nat).len()) == dec_chars(n as nat),
        i + l.len() + dec_chars(n as nat).len() < s.len() ==> !is_digit(
            s[i + l.len() + dec_chars(n as nat).len()],
        ),
    ensures
        lit_u64(s, i, l) == Some((n, i + l.len() + dec_chars(n as nat).len())),
{
    assert(match_lit(s, i, l));
    crate::text::lemma_dec_chars_val(n as nat);
    let p = i + l.len();
    let d = dec_chars(n as nat);
    let q = p + d.len();
    assert forall|k: int| p <= k < q implies is_digit(s[k]) by {
        assert(s.subrange(p, q)[k - p] == s[k]);
    }
    lemma_digits_end_at(s, p, q);
    assert(s.subrange(p, q) == d);
    assert(s[p] == d[0]);
    assert(dec_val(s.subrange(p, q)) == n);
}

/// Splitting a known concatenation into its two parts.
proof fn lemma_split_at(s: Seq<char>, i: int, a: Seq<char>, b: Seq<char>)
    requires
        0 <= i,
        i + a.len() + b.len() <= s.len(),
        s.subrange(i, i + a.len() + b.len()) == a + b,
    ensures
        s.subrange(i, i + a.len()) == a,
        s.subrange(i + a.len(), i + a.len() + b.len()) == b,
{
    assert(s.subrange(i, i + a.len()) =~= a) by {
        assert forall|m: int| 0 <= m < a.len() implies s.subrange(i, i + a.len())[m] == a[m] by {
            assert(s.subrange(i, i + a.len() + b.len())[m] == (a + b)[m]);
        }
    }
    assert(s.subrange(i + a.len(), i + a.len() + b.len()) =~= b) by {
        assert forall|m: int|
            0 <= m < b.len() implies s.subrange(i + a.len(), i + a.len() + b.len())[m] == b[m] by {
            assert(s.subrange(i + a.len(), i + a.len() + b.len())[m] == s[i + a.len() + m]);
            assert(s.subrange(i, i + a.len() + b.len())[a.len() + m] == s[i + a.len() + m]);
            assert((a + b)[a.len() + m] == b[m]);
        }
    }
}

/// Parsing the encoded proof-system block from its start recovers it, when a
/// quote follows (as it does in every enclosing shape).
proof fn lemma_parse_pi_of_enc(s: Seq<char>, i: int, e: PiSpec)
    requires
        0 <= i,
        i + enc_pi(e).len() < s.len(),
        s.subrange(i, i + enc_pi(e).len()) == enc_pi(e),
        s[i + enc_pi(e).len()] == '"',
        pi_quote_free(e),
    ensures
        spec_parse_pi(s, i) == Some((e, i + enc_pi(e).len())),
{
    reveal_strlit("{\"pi_a\":[\"");
    reveal_strlit("\",\"");
    reveal_strlit("\"],\"pi_b\":[[\"");
    reveal_strlit("\"],[\"");
    reveal_strlit("\"]],\"pi_c\":[\"");
    let t1 = l_pi_open();
    let t2 = t1 + e.a0;
    let t3 = t2 + l_cq();
    let t4 = t3 + e.a1;
    let t5 = t4 + l_pib();
    let t6 = t5 + e.b00;
    let t7 = t6 + l_cq();
    let t8 = t7 + e.b01;
    let t9 = t8 + l_mid();
    let t10 = t9 + e.b10;
    let t11 = t10 + l_cq();
    let t12 = t11 + e.b11;
    let t13 = t12 + l_pic();
    let t14 = t13 + e.c0;
    let t15 = t14 + l_cq();
    let t16 = t15 + e.c1;
    assert(enc_pi(e) == t16);
    lemma_split_at(s, i, t15, e.c1);
    lemma_split_at(s, i, t14, l_cq());
    lemma_split_at(s, i, t13, e.c0);
    lemma_split_at(s, i, t12, l_pic());
    lemma_split_at(s, i, t11, e.b11);
    lemma_split_at(s, i, t10, l_cq());
    lemma_split_at(s, i, t9, e.b10);
    lemma_split_at(s, i, t8, l_mid());
    lemma_split_at(s, i, t7, e.b01);
    lemma_split_at(s, i, t6, l_cq());
    lemma_split_at(s, i, t5, e.b00);
    lemma_split_at(s, i, t4, l_pib());
    lemma_split_at(s, i, t3, e.a1);
    lemma_split_at(s, i, t2, l_cq());
    lemma_split_at(s, i, t1, e.a0);
    let o0 = i;
    let o1 = i + t2.len();
    let o2 = i + t4.len();
    let o3 = i + t6.len();
    let o4 = i + t8.len();
    let o5 = i + t10.len();
    let o6 = i + t12.len();
    let o7 = i + t14.len();
    assert(s[o1] == '"') by {
        assert(s.subrange(o1, o1 + l_cq().len())[0] == s[o1]);
    }
    assert(s[o2] == '"') by {
        assert(s.subrange(o2, o2 + l_pib().len())[0] == s[o2]);
    }
    assert(s[o3] == '"') by {
        assert(s.subrange(o3, o3 + l_cq().len())[0] == s[o3]);
    }
    assert(s[o4] == '"') by {
        assert(s.subrange(o4, o4 + l_mid().len())[0] == s[o4]);
    }
    assert(s[o5] == '"') by {
        assert(s.subrange(o5, o5 + l_cq().len())[0] == s[o5]);
    }
    assert(s[o6] == '"') by {
        assert(s.subrange(o6, o6 + l_pic().len())[0] == s[o6]);
    }
    assert(s[o7] == '"') by {
        assert(s.subrange(o7, o7 + l_cq().len())[0] == s[o7]);
    }
    lemma_lit_string_step(s, o0, l_pi_open(), e.a0);
    lemma_lit_string_step(s, o1, l_cq(), e.a1);
    lemma_lit_string_step(s, o2, l_pib(), e.b00);
    lemma_lit_string_step(s, o3, l_cq(), e.b01);
    lemma_lit_string_step(s, o4, l_mid(), e.b10);
    lemma_lit_string_step(s, o5, l_cq(), e.b11);
    lemma_lit_string_step(s, o6, l_pic(), e.c0);
    lemma_lit_string_step(s, o7, l_cq(), e.c1);
}

/// Whether none of the proof-system strings holds a double quote.
pub open spec fn pi_quote_free(e: PiSpec) -> bool {
    &&& forall|k: int| 0 <= k < e.a0.len() ==> e.a0[k] != '"'
    &&& forall|k: int| 0 <= k < e.a1.len() ==> e.a1[k] != '"'
    &&& forall|k: int| 0 <= k < e.b00.len() ==> e.b00[k] != '"'
    &&& forall|k: int| 0 <= k < e.b01.len() ==> e.b01[k] != '"'
    &&& forall|k: int| 0 <= k < e.b10.len() ==> e.b10[k] != '"'
    &&& forall|k: int| 0 <= k < e.b11.len() ==> e.b11[k] != '"'
    &&& forall|k: int| 0 <= k < e.c0.len() ==> e.c0[k] != '"'
    &&& forall|k: int| 0 <= k < e.c1.len() ==> e.c1[k] != '"'
}

/// Whether a character sequence is free of double quotes, so that it embeds
/// verbatim in the envelope text.
pub open spec fn quote_free(s: Seq<char>) -> bool {
    forall|k: int| 0 <= k < s.len() ==> s[k] != '"'
}

/// The codec coheres on the keyed-numeric shape: the compact text built for
/// an envelope whose string fields hold no double quote parses back to
/// exactly that envelope.
#[verifier::rlimit(100)]
#[verifier::spinoff_prover]
pub proof fn lemma_keyed_round_trip(e: KeyedEnvelopeSpec)
    requires
        pi_quote_free(e.pi),
        quote_free(e.smt_root),
    ensures
        spec_parse_envelope(enc_keyed(e)) == Some(EnvelopeSpec::Keyed(e)),
{
    reveal_strlit("\"],\"smt_root\":\"");
    reveal_strlit("\",\"username\":\"");
    reveal_strlit("\",\"key\":");
    reveal_strlit(",\"value\":");
    reveal_strlit(",\"siblings\":[");
    reveal_strlit(",");
    reveal_strlit("]}");
    let s = enc_keyed(e);
    let dk = dec_chars(e.key as nat);
    let dv = dec_chars(e.value as nat);
    let d0 = dec_chars(e.sib0 as nat);
    let d1 = dec_chars(e.sib1 as nat);
    let d2 = dec_chars(e.sib2 as nat);
    crate::text::lemma_dec_chars_val(e.key as nat);
    crate::text::lemma_dec_chars_val(e.value as nat);
    crate::text::lemma_dec_chars_val(e.sib0 as nat);
    crate::text::lemma_dec_chars_val(e.sib1 as nat);
    crate::text::lemma_dec_chars_val(e.sib2 as nat);
    let u1 = enc_pi(e.pi);
    let u2 = u1 + l_root();
    let u3 = u2 + e.smt_root;
    let u4 = u3 + l_key();
    let u5 = u4 + dk;
    let u6 = u5 + l_value();
    let u7 = u6 + dv;
    let u8 = u7 + l_sib();
    let u9 = u8 + d0;
    let u10 = u9 + l_comma();
    let u11 = u10 + d1;
    let u12 = u11 + l_comma();
    let u13 = u12 + d2;
    let u14 = u13 + l_end();
    assert(s == u14);
    assert(s.subrange(0, u14.len() as int) =~= u14);
    lemma_split_at(s, 0, u13, l_end());
    lemma_split_at(s, 0, u12, d2);
    lemma_split_at(s, 0, u11, l_comma());
    lemma_split_at(s, 0, u10, d1);
    lemma_split_at(s, 0, u9, l_comma());
    lemma_split_at(s, 0, u8, d0);
    lemma_split_at(s, 0, u7, l_sib());
    lemma_split_at(s, 0, u6, dv);
    lemma_split_at(s, 0, u5, l_value());
    lemma_split_at(s, 0, u4, dk);
    lemma_split_at(s, 0, u3, l_key());
    lemma_split_at(s, 0, u2, e.smt_root);
    lemma_split_at(s, 0, u1, l_root());
    let p1 = u1.len() as int;
    let p2 = u2.len() as int;
    let p3 = u3.len() as int;
    let p4 = u4.len() as int;
    let p5 = u5.len() as int;
    let p6 = u6.len() as int;
    let p7 = u7.len() as int;
    let p8 = u8.len() as int;
    let p9 = u9.len() as int;
    let p10 = u10.len() as int;
    let p11 = u11.len() as int;
    let p12 = u12.len() as int;
    let p13 = u13.len() as int;
    assert(s[p1] == '"') by {
        assert(s.subrange(p1, p1 + l_root().len())[0] == s[p1]);
    }
    lemma_parse_pi_of_enc(s, 0, e.pi);
    assert(s[p3] == '"') by {
        assert(s.subrange(p3, p3 + l_key().len())[0] == s[p3]);
    }
    lemma_lit_string_step(s, p1, l_root(), e.smt_root);
    assert(!match_lit(s, p3, l_user())) by {
        if match_lit(s, p3, l_user()) {
            assert(s.subrange(p3, p3 + l_user().len())[3] == s[p3 + 3]);
            assert(s.subrange(p3, p3 + l_key().len())[3] == s[p3 + 3]);
        }
    }
    assert(!is_digit(s[p5])) by {
        assert(s.subrange(p5, p5 + l_value().len())[0] == s[p5]);
    }
    lemma_lit_u64_step(s, p3, l_key(), e.key);
    assert(!is_digit(s[p7])) by {
        assert(s.subrange(p7, p7 + l_sib().len())[0] == s[p7]);
    }
    lemma_lit_u64_step(s, p5, l_value(), e.value);
    assert(!is_digit(s[p9])) by {
        assert(s.subrange(p9, p9 + l_comma().len())[0] == s[p9]);
    }
    lemma_lit_u64_step(s, p7, l_sib(), e.sib0);
    assert(!is_digit(s[p11])) by {
        assert(s.subrange(p11, p11 + l_comma().len())[0] == s[p11]);
    }
    lemma_lit_u64_step(s, p9, l_comma(), e.sib1);
    assert(!is_digit(s[p13])) by {
        assert(s.subrange(p13, p13 + l_end().len())[0] == s[p13]);
    }
    lemma_lit_u64_step(s, p11, l_comma(), e.sib2);
    assert(match_lit(s, p13, l_end()));
    assert(p13 + l_end().len() == s.len());
    assert(spec_parse_keyed_tail(s, p3, e.pi, e.smt_root) == Some(
        KeyedEnvelopeSpec {
            pi: e.pi,
            smt_root: e.smt_root,
            key: e.key,
            value: e.value,
            sib0: e.sib0,
            sib1: e.sib1,
            sib2: e.sib2,
        },
    ));
}

/// The tail of an encoded username-keyed envelope parses back to it.
#[verifier::rlimit(100)]
#[verifier::spinoff_prover]
proof fn lemma_user_tail_of_enc(s: Seq<char>, e: UserEnvelopeSpec)
    requires
        s == enc_user(e),
        quote_free(e.username),
    ensures
        s.subrange(0, enc_pi(e.pi).len() as int) == enc_pi(e.pi),
        s.subrange(
            enc_pi(e.pi).len() as int,
            (enc_pi(e.pi) + l_root()).len() as int,
        ) == l_root(),
        s.subrange(
            (enc_pi(e.pi) + l_root()).len() as int,
            (enc_pi(e.pi) + l_root() + e.smt_root).len() as int,
        ) == e.smt_root,
        match_lit(s, (enc_pi(e.pi) + l_root() + e.smt_root).len() as int, l_user()),
        spec_parse_user_tail(
            s,
            (enc_pi(e.pi) + l_root() + e.smt_root).len() as int,
            e.pi,
            e.smt_root,
        ) == Some(e),
{
    reveal_strlit("\",\"username\":\"");
    reveal_strlit("\",\"public_key\":");
    reveal_strlit(",\"secret_value\":");
    reveal_strlit(",\"nonce\":");
    reveal_strlit(",\"siblings\":[");
    reveal_strlit(",");
    reveal_strlit("]}");
    let dp = dec_chars(e.public_key as nat);
    let ds = dec_chars(e.secret_value as nat);
    let dn = dec_chars(e.nonce as nat);
    let d0 = dec_chars(e.sib0 as nat);
    let d1 = dec_chars(e.sib1 as nat);
    let d2 = dec_chars(e.sib2 as nat);
    crate::text::lemma_dec_chars_val(e.public_key as nat);
    crate::text::lemma_dec_chars_val(e.secret_value as nat);
    crate::text::lemma_dec_chars_val(e.nonce as nat);
    crate::text::lemma_dec_chars_val(e.sib0 as nat);
    crate::text::lemma_dec_chars_val(e.sib1 as nat);
    crate::text::lemma_dec_chars_val(e.sib2 as nat);
    let u3 = enc_pi(e.pi) + l_root() + e.smt_root;
    let u4 = u3 + l_user();
    let u5 = u4 + e.username;
    let u6 = u5 + l_pk();
    let u7 = u6 + dp;
    let u8 = u7 + l_sv();
    let u9 = u8 + ds;
    let u10 = u9 + l_nonce();
    let u11 = u10 + dn;
    let u12 = u11 + l_sib();
    let u13 = u12 + d0;
    let u14 = u13 + l_comma();
    let u15 = u14 + d1;
    let u16 = u15 + l_comma();
    let u17 = u16 + d2;
    let u18 = u17 + l_end();
    assert(s == u18);
    assert(s.subrange(0, u18.len() as int) =~= u18);
    lemma_split_at(s, 0, u17, l_end());
    lemma_split_at(s, 0, u16, d2);
    lemma_split_at(s, 0, u15, l_comma());
    lemma_split_at(s, 0, u14, d1);
    lemma_split_at(s, 0, u13, l_comma());
    lemma_split_at(s, 0, u12, d0);
    lemma_split_at(s, 0, u11, l_sib());
    lemma_split_at(s, 0, u10, dn);
    lemma_split_at(s, 0, u9, l_nonce());
    lemma_split_at(s, 0, u8, ds);
    lemma_split_at(s, 0, u7, l_sv());
    lemma_split_at(s, 0, u6, dp);
    lemma_split_at(s, 0, u5, l_pk());
    lemma_split_at(s, 0, u4, e.username);
    lemma_split_at(s, 0, u3, l_user());
    lemma_split_at(s, 0, enc_pi(e.pi) + l_root(), e.smt_root);
    lemma_split_at(s, 0, enc_pi(e.pi), l_root());
    let p3 = u3.len() as int;
    let p5 = u5.len() as int;
    let p7 = u7.len() as int;
    let p9 = u9.len() as int;
    let p11 = u11.len() as int;
    let p13 = u13.len() as int;
    let p15 = u15.len() as int;
    let p17 = u17.len() as int;
    assert(match_lit(s, p3, l_user()));
    assert(s[p5] == '"') by {
        assert(s.subrange(p5, p5 + l_pk().len())[0] == s[p5]);
    }
    lemma_lit_string_step(s, p3, l_user(), e.username);
    assert(!is_digit(s[p7])) by {
        assert(s.subrange(p7, p7 + l_sv().len())[0] == s[p7]);
    }
    lemma_lit_u64_step(s, p5, l_pk(), e.public_key);
    assert(!is_digit(s[p9])) by {
        assert(s.subrange(p9, p9 + l_nonce().len())[0] == s[p9]);
    }
    lemma_lit_u64_step(s, p7, l_sv(), e.secret_value);
    assert(!is_digit(s[p11])) by {
        assert(s.subrange(p11, p11 + l_sib().len())[0] == s[p11]);
    }
    lemma_lit_u64_step(s, p9, l_nonce(), e.nonce);
    assert(!is_digit(s[p13])) by {
        assert(s.subrange(p13, p13 + l_comma().len())[0] == s[p13]);
    }
    lemma_lit_u64_step(s, p11, l_sib(), e.sib0);
    assert(!is_digit(s[p15])) by {
        assert(s.subrange(p15, p15 + l_comma().len())[0] == s[p15]);
    }
    lemma_lit_u64_step(s, p13, l_comma(), e.sib1);
    assert(!is_digit(s[p17])) by {
        assert(s.subrange(p17, p17 + l_end().len())[0] == s[p17]);
    }
    lemma_lit_u64_step(s, p15, l_comma(), e.sib2);
    assert(match_lit(s, p17, l_end()));
    assert(p17 + l_end().len() == s.len());
    assert(spec_parse_user_tail(s, p3, e.pi, e.smt_root) == Some(
        UserEnvelopeSpec {
            pi: e.pi,
            smt_root: e.smt_root,
            username: e.username,
            public_key: e.public_key,
            secret_value: e.secret_value,
            nonce: e.nonce,
            sib0: e.sib0,
            sib1: e.sib1,
            sib2: e.sib2,
        },
    ));
}

/// Where a text opens with an encoded proof-system block, the root literal
/// and a quote-free root text, followed by the username literal, its head
/// parses back to that block and root.
proof fn lemma_flat_head(s: Seq<char>, pi: PiSpec, rt: Seq<char>, p1: int, p3: int)
    requires
        pi_quote_free(pi),
        quote_free(rt),
        p1 == enc_pi(pi).len(),
        p3 == p1 + l_root().len() + rt.len(),
        s.subrange(0, p1) == enc_pi(pi),
        s.subrange(p1, p1 + l_root().len()) == l_root(),
        s.subrange(p1 + l_root().len(), p3) == rt,
        match_lit(s, p3, l_user()),
    ensures
        spec_parse_pi(s, 0) == Some((pi, p1)),
        lit_string(s, p1, l_root()) == Some((rt, p3)),
{
    reveal_strlit("\"],\"smt_root\":\"");
    reveal_strlit("\",\"username\":\"");
    assert(p3 + l_user().len() <= s.len());
    assert(s[p1] == '"') by {
        assert(s.subrange(p1, p1 + l_root().len())[0] == s[p1]);
    }
    lemma_parse_pi_of_enc(s, 0, pi);
    assert(s[p3] == '"') by {
        assert(s.subrange(p3, p3 + l_user().len())[0] == s[p3]);
    }
    lemma_lit_string_step(s, p1, l_root(), rt);
}

/// The codec coheres on the username-keyed shape: the compact text built for
/// an envelope whose string fields hold no double quote parses back to
/// exactly that envelope.
#[verifier::rlimit(100)]
#[verifier::spinoff_prover]
pub proof fn lemma_user_round_trip(e: UserEnvelopeSpec)
    requires
        pi_quote_free(e.pi),
        quote_free(e.smt_root),
        quote_free(e.username),
    ensures
        spec_parse_envelope(enc_user(e)) == Some(EnvelopeSpec::User(e)),
{
    let s = enc_user(e);
    lemma_user_tail_of_enc(s, e);
    lemma_flat_head(
        s,
        e.pi,
        e.smt_root,
        enc_pi(e.pi).len() as int,
        (enc_pi(e.pi) + l_root() + e.smt_root).len() as int,
    );
}

} // verus!
