//! QoS profiles and their liveliness-token text form.
//!
//! The token form is
//! `[reliability]:[durability]:[history_kind],[depth]:[deadline]:[lifespan]:[liveliness]`,
//! where every component equal to the default profile is left empty.

use vstd::prelude::*;

use crate::text::{
    all_digits, chars_of, decimal, digits_value, is_digit, lemma_decimal,
    lemma_decimal_no_leading_zero, lemma_parse_decimal,
    lemma_split_concat, lemma_split_no_sep, lemma_split_nonempty, parse_usize, parse_usize_chars,
    push_decimal, split, split_chars, views,
};

verus! {

/// History depth that rmw_zenoh_cpp substitutes when a liveliness token
/// omits the depth (the depth equals rmw_zenoh's default profile).
pub const RMW_ZENOH_DEFAULT_HISTORY_DEPTH: usize = 42;

/// Depth of the default keep-last history.
pub const DEFAULT_HISTORY_DEPTH: usize = 10;

/// QoS reliability policy. ROS 2 default: `Reliable`.
#[derive(Debug, Clone, Copy, PartialEq, Eq, Hash, Structural)]
pub enum QosReliability {
    BestEffort,
    Reliable,
}

/// QoS durability policy. Default: `Volatile`.
#[derive(Debug, Clone, Copy, PartialEq, Eq, Hash, Structural)]
pub enum QosDurability {
    Volatile,
    TransientLocal,
}

/// QoS history policy. Default: keep the last ten samples.
#[derive(Debug, Clone, Copy, PartialEq, Eq, Hash, Structural)]
pub enum QosHistory {
    KeepLast(usize),
    KeepAll,
}

/// QoS profile for ROS 2 entities.
#[derive(Debug, Clone, Copy, PartialEq, Eq, Hash, Structural)]
pub struct QosProfile {
    pub reliability: QosReliability,
    pub durability: QosDurability,
    pub history: QosHistory,
}

/// Why a token could not be decoded.
#[derive(Debug, Clone, Copy, PartialEq, Eq, Structural)]
pub enum QosDecodeError {
    InvalidFormat,
    InvalidReliability,
    InvalidDurability,
    InvalidHistory,
}

// ---------------------------------------------------------------------------
// Defaults
// ---------------------------------------------------------------------------

/// The default history: keep the last ten samples.
pub open spec fn default_history() -> QosHistory {
    QosHistory::KeepLast(DEFAULT_HISTORY_DEPTH)
}

/// The default profile: reliable, volatile, default history.
pub open spec fn default_profile() -> QosProfile {
    QosProfile {
        reliability: QosReliability::Reliable,
        durability: QosDurability::Volatile,
        history: default_history(),
    }
}

impl Default for QosReliability {
    fn default() -> (r: Self)
        ensures
            r == QosReliability::Reliable,
    {
        QosReliability::Reliable
    }
}

impl Default for QosDurability {
    fn default() -> (r: Self)
        ensures
            r == QosDurability::Volatile,
    {
        QosDurability::Volatile
    }
}

impl Default for QosHistory {
    fn default() -> (r: Self)
        ensures
            r == default_history(),
    {
        QosHistory::KeepLast(DEFAULT_HISTORY_DEPTH)
    }
}

impl Default for QosProfile {
    fn default() -> (r: Self)
        ensures
            r == default_profile(),
    {
        QosProfile {
            reliability: QosReliability::Reliable,
            durability: QosDurability::Volatile,
            history: QosHistory::KeepLast(DEFAULT_HISTORY_DEPTH),
        }
    }
}

// ---------------------------------------------------------------------------
// History depth
// ---------------------------------------------------------------------------

/// The depth of a history: the kept count for keep-last, zero for keep-all.
pub open spec fn history_depth(h: QosHistory) -> usize {
    match h {
        QosHistory::KeepLast(d) => d,
        QosHistory::KeepAll => 0,
    }
}

impl QosHistory {
    /// A keep-last history of the given depth.
    pub fn from_depth(depth: usize) -> (h: Self)
        ensures
            h == QosHistory::KeepLast(depth),
    {
        QosHistory::KeepLast(depth)
    }

    /// The kept count for keep-last, zero for keep-all.
    pub fn depth(&self) -> (d: usize)
        ensures
            d == history_depth(*self),
    {
        match self {
            QosHistory::KeepLast(d) => *d,
            QosHistory::KeepAll => 0,
        }
    }
}

// ---------------------------------------------------------------------------
// Encoding
// ---------------------------------------------------------------------------

/// Reliability component: empty for the default (reliable), `2` for best effort.
pub open spec fn reliability_token(r: QosReliability) -> Seq<char> {
    match r {
        QosReliability::Reliable => Seq::<char>::empty(),
        QosReliability::BestEffort => seq!['2'],
    }
}

/// Durability component: empty for the default (volatile), `1` for transient local.
pub open spec fn durability_token(d: QosDurability) -> Seq<char> {
    match d {
        QosDurability::Volatile => Seq::<char>::empty(),
        QosDurability::TransientLocal => seq!['1'],
    }
}

/// History component `<kind>,<depth>`: the kind is empty for the default
/// history and `1` for any other keep-last, whose depth is always written;
/// keep-all is `2,`.
pub open spec fn history_token(h: QosHistory) -> Seq<char> {
    match h {
        QosHistory::KeepLast(d) => if h == default_history() {
            seq![','] + decimal(d as nat)
        } else {
            seq!['1', ','] + decimal(d as nat)
        },
        QosHistory::KeepAll => seq!['2', ','],
    }
}

/// Deadline, lifespan and liveliness components, always left at their defaults.
pub open spec fn trailing_token() -> Seq<char> {
    seq![',', ':', ',', ':', ',', ',']
}

/// The token text of a profile.
pub open spec fn encoding(p: QosProfile) -> Seq<char> {
    reliability_token(p.reliability) + seq![':'] + durability_token(p.durability) + seq![':']
        + history_token(p.history) + seq![':'] + trailing_token()
}

impl QosProfile {
    /// Encodes the profile as a liveliness-token QoS string.
    pub fn encode(&self) -> (s: String)
        ensures
            s@ == encoding(*self),
    {
        let default_qos = Self::default();
        let mut out = String::new();

        if self.reliability != default_qos.reliability {
            match self.reliability {
                QosReliability::Reliable => {
                    proof {
                        reveal_strlit("1");
                    }
                    out.append("1");
                },
                QosReliability::BestEffort => {
                    proof {
                        reveal_strlit("2");
                    }
                    out.append("2");
                },
            }
        }
        proof {
            reveal_strlit(":");
        }
        out.append(":");

        if self.durability != default_qos.durability {
            match self.durability {
                QosDurability::TransientLocal => {
                    proof {
                        reveal_strlit("1");
                    }
                    out.append("1");
                },
                QosDurability::Volatile => {
                    proof {
                        reveal_strlit("2");
                    }
                    out.append("2");
                },
            }
        }
        out.append(":");
        let ghost before_history = out@;

        match self.history {
            QosHistory::KeepLast(depth) => {
                if self.history != default_qos.history {
                    proof {
                        reveal_strlit("1,");
                    }
                    out.append("1,");
                } else {
                    proof {
                        reveal_strlit(",");
                    }
                    out.append(",");
                }
                push_decimal(&mut out, depth);
            },
            QosHistory::KeepAll => {
                proof {
                    reveal_strlit("2,");
                }
                out.append("2,");
            },
        }
        assert(out@ =~= before_history + history_token(self.history));

        proof {
            reveal_strlit(":,:,:,,");
        }
        out.append(":,:,:,,");
        assert(out@ =~= encoding(*self));
        out
    }
}

// ---------------------------------------------------------------------------
// Decoding
// ---------------------------------------------------------------------------

/// Reliability from its component: empty means the default (reliable).
pub open spec fn reliability_of(f: Seq<char>) -> Option<QosReliability> {
    if f == Seq::<char>::empty() {
        Some(QosReliability::Reliable)
    } else if f == seq!['1'] {
        Some(QosReliability::Reliable)
    } else if f == seq!['2'] {
        Some(QosReliability::BestEffort)
    } else {
        None
    }
}

/// Durability from its component: empty means the default (volatile).
pub open spec fn durability_of(f: Seq<char>) -> Option<QosDurability> {
    if f == Seq::<char>::empty() {
        Some(QosDurability::Volatile)
    } else if f == seq!['1'] {
        Some(QosDurability::TransientLocal)
    } else if f == seq!['2'] {
        Some(QosDurability::Volatile)
    } else {
        None
    }
}

/// History from its `<kind>,<depth>` component. An empty, `0` or `1` kind is
/// keep-last, whose depth is read as a `usize` or, when empty, taken to be
/// rmw_zenoh's default depth; kind `2` is keep-all whatever the depth says.
/// Pieces after the second comma are not looked at.
pub open spec fn history_of(f: Seq<char>) -> Option<QosHistory> {
    let parts = split(f, ',');
    if parts.len() < 2 {
        None
    } else if parts[0] == Seq::<char>::empty() || parts[0] == seq!['0'] || parts[0] == seq!['1'] {
        if parts[1] == Seq::<char>::empty() {
            Some(QosHistory::KeepLast(RMW_ZENOH_DEFAULT_HISTORY_DEPTH))
        } else {
            match parse_usize(parts[1]) {
                Some(d) => Some(QosHistory::KeepLast(d)),
                None => None,
            }
        }
    } else if parts[0] == seq!['2'] {
        Some(QosHistory::KeepAll)
    } else {
        None
    }
}

/// The profile a token denotes, or the first component that is wrong.
/// The token needs at least three `:`-separated components; those after the
/// third are not looked at.
pub open spec fn decoding(s: Seq<char>) -> Result<QosProfile, QosDecodeError> {
    let fields = split(s, ':');
    if fields.len() < 3 {
        Err(QosDecodeError::InvalidFormat)
    } else {
        match reliability_of(fields[0]) {
            None => Err(QosDecodeError::InvalidReliability),
            Some(reliability) => match durability_of(fields[1]) {
                None => Err(QosDecodeError::InvalidDurability),
                Some(durability) => match history_of(fields[2]) {
                    None => Err(QosDecodeError::InvalidHistory),
                    Some(history) => Ok(QosProfile { reliability, durability, history }),
                },
            },
        }
    }
}

/// Whether `f` is exactly the one character `c`.
fn is_token(f: &Vec<char>, c: char) -> (b: bool)
    ensures
        b == (f@ == seq![c]),
{
    if f.len() == 1 && f[0] == c {
        assert(f@ =~= seq![c]);
        true
    } else {
        false
    }
}

/// Reads the reliability component.
fn reliability_field(f: &Vec<char>) -> (r: Option<QosReliability>)
    ensures
        r == reliability_of(f@),
{
    if f.len() == 0 {
        assert(f@ =~= Seq::<char>::empty());
        Some(QosReliability::default())
    } else if is_token(f, '1') {
        Some(QosReliability::Reliable)
    } else if is_token(f, '2') {
        Some(QosReliability::BestEffort)
    } else {
        None
    }
}

/// Reads the durability component.
fn durability_field(f: &Vec<char>) -> (r: Option<QosDurability>)
    ensures
        r == durability_of(f@),
{
    if f.len() == 0 {
        assert(f@ =~= Seq::<char>::empty());
        Some(QosDurability::default())
    } else if is_token(f, '1') {
        Some(QosDurability::TransientLocal)
    } else if is_token(f, '2') {
        Some(QosDurability::Volatile)
    } else {
        None
    }
}

/// Reads the history component.
fn history_field(f: &Vec<char>) -> (r: Option<QosHistory>)
    ensures
        r == history_of(f@),
{
    let parts = split_chars(f, ',');
    if parts.len() < 2 {
        return None;
    }
    let kind = &parts[0];
    let depth_text = &parts[1];
    assert(views(parts@)[0] == kind@);
    assert(views(parts@)[1] == depth_text@);
    if kind.len() == 0 || is_token(kind, '0') || is_token(kind, '1') {
        if kind.len() == 0 {
            assert(kind@ =~= Seq::<char>::empty());
        }
        if depth_text.len() == 0 {
            assert(depth_text@ =~= Seq::<char>::empty());
            Some(QosHistory::KeepLast(RMW_ZENOH_DEFAULT_HISTORY_DEPTH))
        } else {
            match parse_usize_chars(depth_text) {
                Some(d) => Some(QosHistory::KeepLast(d)),
                None => None,
            }
        }
    } else if is_token(kind, '2') {
        Some(QosHistory::KeepAll)
    } else {
        None
    }
}

impl QosProfile {
    /// Decodes a profile from a liveliness-token QoS string.
    pub fn decode(s: &str) -> (r: Result<Self, QosDecodeError>)
        ensures
            r == decoding(s@),
    {
        let chars = chars_of(s);
        let fields = split_chars(&chars, ':');
        if fields.len() < 3 {
            return Err(QosDecodeError::InvalidFormat);
        }
        assert(views(fields@)[0] == fields@[0]@);
        assert(views(fields@)[1] == fields@[1]@);
        assert(views(fields@)[2] == fields@[2]@);

        let reliability = match reliability_field(&fields[0]) {
            Some(r) => r,
            None => return Err(QosDecodeError::InvalidReliability),
        };
        let durability = match durability_field(&fields[1]) {
            Some(d) => d,
            None => return Err(QosDecodeError::InvalidDurability),
        };
        let history = match history_field(&fields[2]) {
            Some(h) => h,
            None => return Err(QosDecodeError::InvalidHistory),
        };
        Ok(QosProfile { reliability, durability, history })
    }
}

// ---------------------------------------------------------------------------
// Error messages
// ---------------------------------------------------------------------------

/// The human-readable message of a decode error.
pub open spec fn error_message(e: QosDecodeError) -> Seq<char> {
    match e {
        QosDecodeError::InvalidFormat => "Invalid QoS format"@,
        QosDecodeError::InvalidReliability => "Invalid reliability value"@,
        QosDecodeError::InvalidDurability => "Invalid durability value"@,
        QosDecodeError::InvalidHistory => "Invalid history value"@,
    }
}

impl QosDecodeError {
    /// The human-readable message of this error.
    pub fn message(&self) -> (m: String)
        ensures
            m@ == error_message(*self),
    {
        match self {
            QosDecodeError::InvalidFormat => String::from_str("Invalid QoS format"),
            QosDecodeError::InvalidReliability => String::from_str("Invalid reliability value"),
            QosDecodeError::InvalidDurability => String::from_str("Invalid durability value"),
            QosDecodeError::InvalidHistory => String::from_str("Invalid history value"),
        }
    }
}

// ---------------------------------------------------------------------------
// Laws
// ---------------------------------------------------------------------------

/// The history component reads back as the history it renders, and holds no `:`.
proof fn lemma_history_token(h: QosHistory)
    ensures
        history_of(history_token(h)) == Some(h),
        !history_token(h).contains(':'),
{
    let tok = history_token(h);
    let (kind, depth) = match h {
        QosHistory::KeepLast(n) => {
            lemma_decimal(n as nat);
            lemma_parse_decimal(n);
            if h == default_history() {
                (Seq::<char>::empty(), decimal(n as nat))
            } else {
                (seq!['1'], decimal(n as nat))
            }
        },
        QosHistory::KeepAll => (seq!['2'], Seq::<char>::empty()),
    };
    assert(tok =~= kind + seq![','] + depth);
    assert(!kind.contains(','));
    assert(!depth.contains(','));
    lemma_split_concat(kind, depth, ',');
    lemma_split_no_sep(kind, ',');
    lemma_split_no_sep(depth, ',');
    assert(split(tok, ',') =~= seq![kind, depth]);
    if let QosHistory::KeepLast(n) = h {
        assert(depth.len() >= 1);
        assert(depth != Seq::<char>::empty());
    }
    assert(!tok.contains(':')) by {
        if tok.contains(':') {
            let k = choose|k: int| 0 <= k < tok.len() && tok[k] == ':';
            if k < kind.len() {
                assert(kind[k] == ':');
            } else if k > kind.len() {
                assert(depth[k - kind.len() - 1] == ':');
            }
        }
    }
}

/// Decoding the encoding of any profile gives that profile back.
pub proof fn lemma_decode_encode(p: QosProfile)
    ensures
        decoding(encoding(p)) == Ok::<QosProfile, QosDecodeError>(p),
{
    let r = reliability_token(p.reliability);
    let d = durability_token(p.durability);
    let h = history_token(p.history);
    let t = trailing_token();
    let s = encoding(p);
    lemma_history_token(p.history);
    assert(!r.contains(':'));
    assert(!d.contains(':'));
    let tail = h + seq![':'] + t;
    let mid = d + seq![':'] + tail;
    assert(s =~= r + seq![':'] + mid);
    assert(mid =~= d + seq![':'] + tail);
    lemma_split_concat(r, mid, ':');
    lemma_split_concat(d, tail, ':');
    lemma_split_concat(h, t, ':');
    lemma_split_no_sep(r, ':');
    lemma_split_no_sep(d, ':');
    lemma_split_no_sep(h, ':');
    let fields = split(s, ':');
    assert(fields =~= seq![r] + (seq![d] + (seq![h] + split(t, ':'))));
    assert(fields[0] == r);
    assert(fields[1] == d);
    assert(fields[2] == h);
    assert(reliability_of(r) == Some(p.reliability));
    assert(durability_of(d) == Some(p.durability));
}

/// Decoding looks only at the first three components: anything appended
/// after a further `:` leaves the outcome unchanged.
pub proof fn lemma_decode_ignores_trailing(s: Seq<char>, rest: Seq<char>)
    requires
        split(s, ':').len() >= 3,
    ensures
        decoding(s + seq![':'] + rest) == decoding(s),
{
    lemma_split_concat(s, rest, ':');
    let fields = split(s + seq![':'] + rest, ':');
    assert(fields[0] == split(s, ':')[0]);
    assert(fields[1] == split(s, ':')[1]);
    assert(fields[2] == split(s, ':')[2]);
}

/// The depth of a keep-last history built from a depth is that depth.
pub proof fn lemma_depth_from_depth(depth: usize)
    ensures
        history_depth(QosHistory::KeepLast(depth)) == depth,
{
}

// ---------------------------------------------------------------------------
// Laws on the shape of tokens
// ---------------------------------------------------------------------------

/// The token made of a reliability, a durability and a history component,
/// followed by `rest`.
pub open spec fn token(a: Seq<char>, b: Seq<char>, h: Seq<char>, rest: Seq<char>) -> Seq<char> {
    a + seq![':'] + b + seq![':'] + h + rest
}

/// `rest` ends the history component: it is empty or starts with `:`.
pub open spec fn ends_component(rest: Seq<char>) -> bool {
    rest.len() == 0 || rest[0] == ':'
}

/// One of the reliability or durability spellings a token may use.
pub open spec fn is_policy_text(f: Seq<char>) -> bool {
    f == Seq::<char>::empty() || f == seq!['1'] || f == seq!['2']
}

/// The first three `:`-components of `token(a, b, h, rest)` are `a`, `b`, `h`.
proof fn lemma_token_fields(a: Seq<char>, b: Seq<char>, h: Seq<char>, rest: Seq<char>)
    requires
        !a.contains(':'),
        !b.contains(':'),
        !h.contains(':'),
        ends_component(rest),
    ensures
        split(token(a, b, h, rest), ':').len() >= 3,
        split(token(a, b, h, rest), ':')[0] == a,
        split(token(a, b, h, rest), ':')[1] == b,
        split(token(a, b, h, rest), ':')[2] == h,
{
    let s = token(a, b, h, rest);
    lemma_split_no_sep(a, ':');
    lemma_split_no_sep(b, ':');
    lemma_split_no_sep(h, ':');
    if rest.len() == 0 {
        let mid = b + seq![':'] + h;
        assert(s =~= a + seq![':'] + mid);
        lemma_split_concat(a, mid, ':');
        lemma_split_concat(b, h, ':');
        assert(split(s, ':') =~= seq![a] + (seq![b] + seq![h]));
    } else {
        let t = rest.drop_first();
        assert(rest =~= seq![':'] + t);
        let tail = h + seq![':'] + t;
        let mid = b + seq![':'] + tail;
        assert(s =~= a + seq![':'] + mid);
        lemma_split_concat(a, mid, ':');
        lemma_split_concat(b, tail, ':');
        lemma_split_concat(h, t, ':');
        assert(split(s, ':') =~= seq![a] + (seq![b] + (seq![h] + split(t, ':'))));
    }
}

/// Reliability and durability components: an unknown reliability is
/// rejected first, then an unknown durability; once both are known the
/// token decodes unless the history is bad, and the decoded policies are
/// best effort exactly for `2` and transient local exactly for `1`.
pub proof fn law_decode_policies(a: Seq<char>, b: Seq<char>, h: Seq<char>, rest: Seq<char>)
    requires
        !a.contains(':'),
        !b.contains(':'),
        !h.contains(':'),
        ends_component(rest),
    ensures
        !is_policy_text(a) ==> decoding(token(a, b, h, rest)) == Err::<QosProfile, QosDecodeError>(
            QosDecodeError::InvalidReliability,
        ),
        is_policy_text(a) && !is_policy_text(b) ==> decoding(token(a, b, h, rest)) == Err::<
            QosProfile,
            QosDecodeError,
        >(QosDecodeError::InvalidDurability),
        is_policy_text(a) && is_policy_text(b) ==> (decoding(token(a, b, h, rest)) is Ok
            || decoding(token(a, b, h, rest)) == Err::<QosProfile, QosDecodeError>(
            QosDecodeError::InvalidHistory,
        )),
        decoding(token(a, b, h, rest)) matches Ok(p) ==> {
            &&& (p.reliability == QosReliability::BestEffort <==> a == seq!['2'])
            &&& (p.durability == QosDurability::TransientLocal <==> b == seq!['1'])
        },
{
    lemma_token_fields(a, b, h, rest);
    let e = Seq::<char>::empty();
    let one = seq!['1'];
    let two = seq!['2'];
    assert(e != one && e != two && one != two) by {
        assert(e.len() != one.len() && e.len() != two.len());
        assert(one[0] != two[0]);
    }
}

/// Kind `2` is keep-all whatever follows the comma: the history decodes as
/// keep-all, and the only errors left are those of the other components.
pub proof fn law_decode_keep_all(a: Seq<char>, b: Seq<char>, x: Seq<char>, rest: Seq<char>)
    requires
        !a.contains(':'),
        !b.contains(':'),
        !x.contains(':'),
        ends_component(rest),
    ensures
        decoding(token(a, b, seq!['2', ','] + x, rest)) matches Ok(p) ==> p.history
            == QosHistory::KeepAll,
        decoding(token(a, b, seq!['2', ','] + x, rest)) matches Err(e) ==> (e
            == QosDecodeError::InvalidReliability || e == QosDecodeError::InvalidDurability),
        is_policy_text(a) && is_policy_text(b) ==> decoding(token(a, b, seq!['2', ','] + x, rest))
            is Ok,
{
    let h = seq!['2', ','] + x;
    assert(!h.contains(':')) by {
        if h.contains(':') {
            let k = choose|k: int| 0 <= k < h.len() && h[k] == ':';
            assert(x[k - 2] == ':');
        }
    }
    lemma_token_fields(a, b, h, rest);
    assert(h =~= seq!['2'] + seq![','] + x);
    lemma_split_concat(seq!['2'], x, ',');
    lemma_split_no_sep(seq!['2'], ',');
    lemma_split_nonempty(x, ',');
    assert(split(h, ',')[0] == seq!['2']);
    assert(history_of(h) == Some(QosHistory::KeepAll));
}

/// A keep-last kind (empty, `0` or `1`) followed by a digit string is
/// keep-last with the number those digits denote, however large, as long as
/// it fits a `usize`; an empty depth is rmw_zenoh's default depth.
pub proof fn law_decode_keep_last(
    a: Seq<char>,
    b: Seq<char>,
    kind: Seq<char>,
    digits: Seq<char>,
    rest: Seq<char>,
)
    requires
        !a.contains(':'),
        !b.contains(':'),
        kind == Seq::<char>::empty() || kind == seq!['0'] || kind == seq!['1'],
        all_digits(digits),
        digits_value(digits) <= usize::MAX,
        ends_component(rest),
    ensures
        decoding(token(a, b, kind + seq![','] + digits, rest)) matches Ok(p) ==> p.history
            == QosHistory::KeepLast(
            if digits.len() == 0 {
                42usize
            } else {
                digits_value(digits) as usize
            },
        ),
        decoding(token(a, b, kind + seq![','] + digits, rest)) matches Err(e) ==> (e
            == QosDecodeError::InvalidReliability || e == QosDecodeError::InvalidDurability),
        is_policy_text(a) && is_policy_text(b) ==> decoding(
            token(a, b, kind + seq![','] + digits, rest),
        ) is Ok,
{
    let h = kind + seq![','] + digits;
    assert(!digits.contains(':') && !digits.contains(',')) by {
        if digits.contains(':') || digits.contains(',') {
            let k = choose|k: int|
                0 <= k < digits.len() && (digits[k] == ':' || digits[k] == ',');
            assert(is_digit(digits[k]));
        }
    }
    assert(!kind.contains(',') && !kind.contains(':')) by {
        if kind.contains(',') || kind.contains(':') {
            let k = choose|k: int| 0 <= k < kind.len() && (kind[k] == ',' || kind[k] == ':');
            assert(kind[0] == kind[k]);
        }
    }
    assert(!h.contains(':')) by {
        if h.contains(':') {
            let k = choose|k: int| 0 <= k < h.len() && h[k] == ':';
            if k < kind.len() {
                assert(kind[k] == ':');
            } else if k > kind.len() {
                assert(digits[k - kind.len() - 1] == ':');
            }
        }
    }
    lemma_token_fields(a, b, h, rest);
    lemma_split_concat(kind, digits, ',');
    lemma_split_no_sep(kind, ',');
    lemma_split_no_sep(digits, ',');
    assert(split(h, ',') =~= seq![kind, digits]);
    if digits.len() == 0 {
        assert(digits =~= Seq::<char>::empty());
    } else {
        assert(is_digit(digits[0]));
        assert(parse_usize(digits) == Some(digits_value(digits) as usize));
    }
}

/// The shape of every encoded token: exactly six `:`-components; the first
/// is empty for reliable and `2` for best effort, the second empty for
/// volatile and `1` for transient local (each fixed by its own policy
/// alone); the third is `2,` for keep-all and otherwise a kind (empty for the
/// default depth ten, `1` for any other) with the depth in decimal; the last
/// three are `,`, `,`, `,,`, so that the token ends with `:,:,:,,`.
pub proof fn law_encode_shape(p: QosProfile)
    ensures
        split(encoding(p), ':').len() == 6,
        split(encoding(p), ':')[0] == (if p.reliability == QosReliability::Reliable {
            Seq::<char>::empty()
        } else {
            seq!['2']
        }),
        split(encoding(p), ':')[1] == (if p.durability == QosDurability::Volatile {
            Seq::<char>::empty()
        } else {
            seq!['1']
        }),
        p.history == QosHistory::KeepAll ==> split(encoding(p), ':')[2] == seq!['2', ','],
        p.history matches QosHistory::KeepLast(n) ==> {
            let parts = split(split(encoding(p), ':')[2], ',');
            &&& parts.len() == 2
            &&& parts[0] == (if n == 10 {
                Seq::<char>::empty()
            } else {
                seq!['1']
            })
            &&& parts[1].len() >= 1
            &&& all_digits(parts[1])
            &&& digits_value(parts[1]) == n
            &&& (parts[1].len() == 1 || parts[1][0] != '0')
        },
        split(encoding(p), ':')[3] == seq![','],
        split(encoding(p), ':')[4] == seq![','],
        split(encoding(p), ':')[5] == seq![',', ','],
        encoding(p).len() >= 7,
        encoding(p).subrange(encoding(p).len() - 7, encoding(p).len() as int) == seq![
            ':',
            ',',
            ':',
            ',',
            ':',
            ',',
            ',',
        ],
{
    let r = reliability_token(p.reliability);
    let d = durability_token(p.durability);
    let h = history_token(p.history);
    let t = trailing_token();
    let s = encoding(p);
    lemma_history_token(p.history);
    let c1 = seq![','];
    let c2 = seq![',', ','];
    lemma_split_no_sep(r, ':');
    lemma_split_no_sep(d, ':');
    lemma_split_no_sep(h, ':');
    lemma_split_no_sep(c1, ':');
    lemma_split_no_sep(c2, ':');
    let t2 = c1 + seq![':'] + c2;
    assert(t =~= c1 + seq![':'] + t2);
    lemma_split_concat(c1, t2, ':');
    lemma_split_concat(c1, c2, ':');
    let tail = h + seq![':'] + t;
    let mid = d + seq![':'] + tail;
    assert(s =~= r + seq![':'] + mid);
    lemma_split_concat(r, mid, ':');
    lemma_split_concat(d, tail, ':');
    lemma_split_concat(h, t, ':');
    assert(split(s, ':') =~= seq![r] + (seq![d] + (seq![h] + (seq![c1] + (seq![c1] + seq![c2])))));
    if let QosHistory::KeepLast(n) = p.history {
        lemma_decimal(n as nat);
        lemma_decimal_no_leading_zero(n as nat);
        let kind = if p.history == default_history() {
            Seq::<char>::empty()
        } else {
            seq!['1']
        };
        let depth = decimal(n as nat);
        assert(h =~= kind + seq![','] + depth);
        lemma_split_concat(kind, depth, ',');
        lemma_split_no_sep(kind, ',');
        lemma_split_no_sep(depth, ',');
        assert(split(h, ',') =~= seq![kind, depth]);
    }
    assert(s.subrange(s.len() - 7, s.len() as int) =~= seq![':'] + t);
}

} // verus!
