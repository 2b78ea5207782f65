//! SMTP command-stream recognizer.
//!
//! A line-based state machine over the client-to-server half-stream: it
//! watches for `AUTH LOGIN` (the two following lines carry the login name
//! and password), `MAIL FROM:<...>` with an optional `SIZE=` hint,
//! `RCPT TO:<...>`, and, inside the message body after `DATA`, the
//! `Subject:` header, emitting one metadata record per recognized line.

use vstd::prelude::*;

use crate::meta::{META_QUEUE_CAP, Meta, MetaHttp, MetaQueue, MetaSmtp, MetaSmtpType};
use crate::pktstrm::{deliverable, PktStrm, ReadPoll};
use crate::task::{Parser, ParserPoll};

verus! {

/// Every byte is plain ASCII.
pub open spec fn ascii_only(s: Seq<u8>) -> bool {
    forall|i: int| 0 <= i < s.len() ==> s[i] < 128
}

/// The characters of `t` are exactly the bytes of `s`, one per byte.
pub open spec fn chars_match(t: Seq<char>, s: Seq<u8>) -> bool {
    t.len() == s.len() && forall|i: int| 0 <= i < s.len() ==> t[i] == s[i] as char
}

/// The characters that given bytes decode to as UTF-8, when they are
/// valid.  Decoding is a function of the bytes alone.
pub uninterp spec fn spec_utf8(v: Seq<u8>) -> Option<Seq<char>>;

/// Relies on `String::from_utf8`: the decode depends on the bytes alone;
/// an all-ASCII byte vector is valid UTF-8 and decodes to exactly one char
/// per byte.
#[verifier::external_body]
fn bytes_to_string(v: Vec<u8>) -> (r: Option<String>)
    ensures
        r is Some <==> spec_utf8(v@) is Some,
        r matches Some(s) ==> Some(s@) == spec_utf8(v@),
        ascii_only(v@) ==> r is Some,
        r matches Some(s) ==> (ascii_only(v@) ==> chars_match(s@, v@)),
{
    String::from_utf8(v).ok()
}

/// The line with one trailing LF and then one trailing CR removed.
pub open spec fn trim_crlf(s: Seq<u8>) -> Seq<u8> {
    let s1 = if s.len() > 0 && s[s.len() - 1] == 10u8 {
        s.take(s.len() - 1)
    } else {
        s
    };
    if s1.len() > 0 && s1[s1.len() - 1] == 13u8 {
        s1.take(s1.len() - 1)
    } else {
        s1
    }
}

/// The line starts with `AUTH LOGIN`.
pub open spec fn spec_is_auth_login(s: Seq<u8>) -> bool {
    s.len() >= 10 && s[0] == 65u8 && s[1] == 85u8 && s[2] == 84u8 && s[3] == 72u8 && s[4] == 32u8
        && s[5] == 76u8 && s[6] == 79u8 && s[7] == 71u8 && s[8] == 73u8 && s[9] == 78u8
}

/// The line starts with `MAIL FROM:`.
pub open spec fn spec_is_mail_from(s: Seq<u8>) -> bool {
    s.len() >= 10 && s[0] == 77u8 && s[1] == 65u8 && s[2] == 73u8 && s[3] == 76u8 && s[4] == 32u8
        && s[5] == 70u8 && s[6] == 82u8 && s[7] == 79u8 && s[8] == 77u8 && s[9] == 58u8
}

/// The line starts with `RCPT TO:`.
pub open spec fn spec_is_rcpt_to(s: Seq<u8>) -> bool {
    s.len() >= 8 && s[0] == 82u8 && s[1] == 67u8 && s[2] == 80u8 && s[3] == 84u8 && s[4] == 32u8
        && s[5] == 84u8 && s[6] == 79u8 && s[7] == 58u8
}

/// The line is the `DATA` command (nothing after it but the line end).
pub open spec fn spec_is_data(s: Seq<u8>) -> bool {
    s.len() >= 4 && s[0] == 68u8 && s[1] == 65u8 && s[2] == 84u8 && s[3] == 65u8 && (s.len() == 4
        || s[4] == 13u8 || s[4] == 10u8)
}

/// The line starts with `Subject: `.
pub open spec fn spec_is_subject(s: Seq<u8>) -> bool {
    s.len() >= 9 && s[0] == 83u8 && s[1] == 117u8 && s[2] == 98u8 && s[3] == 106u8 && s[4]
        == 101u8 && s[5] == 99u8 && s[6] == 116u8 && s[7] == 58u8 && s[8] == 32u8
}

/// The line is the lone dot ending a message body.
pub open spec fn spec_is_end_dot(s: Seq<u8>) -> bool {
    s.len() >= 1 && s[0] == 46u8 && (s.len() == 1 || s[1] == 13u8 || s[1] == 10u8)
}

/// Index of the first occurrence of `b` at or after `from`, or the length
/// when there is none.
pub open spec fn spec_find(s: Seq<u8>, from: int, b: u8) -> int
    decreases s.len() - from when 0 <= from <= s.len()
{
    if from >= s.len() {
        s.len() as int
    } else if s[from] == b {
        from
    } else {
        spec_find(s, from + 1, b)
    }
}

/// Index of the first non-digit at or after `from`.
pub open spec fn spec_digits_end(s: Seq<u8>, from: int) -> int
    decreases s.len() - from when 0 <= from <= s.len()
{
    if from >= s.len() {
        from
    } else if 48 <= s[from] <= 57 {
        spec_digits_end(s, from + 1)
    } else {
        from
    }
}

/// Value of the decimal digits `s[from..to]`.
pub open spec fn spec_decimal(s: Seq<u8>, from: int, to: int) -> int
    decreases to - from when from <= to
{
    if to <= from {
        0
    } else {
        spec_decimal(s, from, to - 1) * 10 + (s[to - 1] - 48)
    }
}

/// Ten to the `n`th.
pub open spec fn pow10(n: nat) -> int
    decreases n,
{
    if n == 0 {
        1
    } else {
        10 * pow10((n - 1) as nat)
    }
}

/// A run of `n` digits is worth less than ten to the `n`th.
proof fn lemma_decimal_bound(s: Seq<u8>, from: int, to: int)
    requires
        0 <= from <= to <= s.len(),
        forall|i: int| from <= i < to ==> 48 <= #[trigger] s[i] <= 57,
    ensures
        0 <= spec_decimal(s, from, to) < pow10((to - from) as nat),
    decreases to - from,
{
    if to > from {
        lemma_decimal_bound(s, from, to - 1);
    }
}

/// The declared `SIZE=` hint of a `MAIL FROM` line: the run of digits after
/// the first `=` past the closing angle bracket; 0 when absent or longer
/// than nineteen digits.
pub open spec fn spec_mail_size(s: Seq<u8>, gt: int) -> int {
    let e = spec_find(s, gt, 61u8);
    if e < s.len() {
        let d = spec_digits_end(s, e + 1);
        if 1 <= d - (e + 1) <= 19 {
            spec_decimal(s, e + 1, d)
        } else {
            0
        }
    } else {
        0
    }
}

/// Where the recognizer stands between lines.
#[derive(Debug, Clone, Copy, PartialEq, Eq, Structural)]
pub enum SmtpMode {
    /// Ordinary command lines.
    Command,
    /// The next line carries the login name (after `AUTH LOGIN`).
    AuthUser,
    /// The next line carries the password (after the login name).
    AuthPass,
    /// Between `DATA` and the lone-dot line: message headers and body.
    Body,
}

/// Mode after seeing one complete line.
pub open spec fn spec_next_mode(mode: SmtpMode, s: Seq<u8>) -> SmtpMode {
    match mode {
        SmtpMode::Command => if spec_is_auth_login(s) {
            SmtpMode::AuthUser
        } else if spec_is_data(s) {
            SmtpMode::Body
        } else {
            SmtpMode::Command
        },
        SmtpMode::AuthUser => SmtpMode::AuthPass,
        SmtpMode::AuthPass => SmtpMode::Command,
        SmtpMode::Body => if spec_is_end_dot(s) {
            SmtpMode::Command
        } else {
            SmtpMode::Body
        },
    }
}

/// The `Subject:` line's text: everything after the prefix, line end
/// removed.
pub open spec fn spec_subject_rest(s: Seq<u8>) -> Seq<u8> {
    if trim_crlf(s).len() >= 9 {
        trim_crlf(s).skip(9)
    } else {
        Seq::empty()
    }
}

/// The held record of a parser, reduced as `rec_of_meta`; `None` when
/// nothing is held.
pub open spec fn rec_of_pending(p: Option<Meta>) -> Option<(MetaSmtpType, Seq<char>, u64)> {
    match p {
        Some(m) => Some(rec_of_meta(m)),
        None => None,
    }
}

/// A recognized record, reduced to what observers can see: its kind, the
/// view of its text, and the size hint (0 for every kind but `MailFrom`).
pub open spec fn rec_of_meta(m: Meta) -> (MetaSmtpType, Seq<char>, u64) {
    match m {
        Meta::Smtp(MetaSmtp::User(u)) => (MetaSmtpType::User, u@, 0u64),
        Meta::Smtp(MetaSmtp::Pass(u)) => (MetaSmtpType::Pass, u@, 0u64),
        Meta::Smtp(MetaSmtp::MailFrom(u, sz)) => (MetaSmtpType::MailFrom, u@, sz),
        Meta::Smtp(MetaSmtp::RcptTo(u)) => (MetaSmtpType::RcptTo, u@, 0u64),
        Meta::Smtp(MetaSmtp::Subject(u)) => (MetaSmtpType::Subject, u@, 0u64),
        Meta::Http(MetaHttp::Reserved(u)) => (MetaSmtpType::Undef, u@, 0u64),
    }
}

/// The record one complete line carries, if any: the line classified in
/// the given mode, its text decoded by `spec_utf8`.
pub open spec fn spec_classify_rec(mode: SmtpMode, s: Seq<u8>) -> Option<
    (MetaSmtpType, Seq<char>, u64),
> {
    match mode {
        SmtpMode::AuthUser => match spec_utf8(trim_crlf(s)) {
            Some(t) => Some((MetaSmtpType::User, t, 0u64)),
            None => None,
        },
        SmtpMode::AuthPass => match spec_utf8(trim_crlf(s)) {
            Some(t) => Some((MetaSmtpType::Pass, t, 0u64)),
            None => None,
        },
        SmtpMode::Command => if spec_is_mail_from(s) {
            let a = spec_find(s, 10, 60u8);
            let b = spec_find(s, a + 1, 62u8);
            if a < s.len() && b < s.len() {
                match spec_utf8(s.subrange(a + 1, b)) {
                    Some(t) => Some((MetaSmtpType::MailFrom, t, spec_mail_size(s, b) as u64)),
                    None => None,
                }
            } else {
                None
            }
        } else if spec_is_rcpt_to(s) {
            let a = spec_find(s, 8, 60u8);
            let b = spec_find(s, a + 1, 62u8);
            if a < s.len() && b < s.len() {
                match spec_utf8(s.subrange(a + 1, b)) {
                    Some(t) => Some((MetaSmtpType::RcptTo, t, 0u64)),
                    None => None,
                }
            } else {
                None
            }
        } else {
            None
        },
        SmtpMode::Body => if spec_is_subject(s) {
            match spec_utf8(spec_subject_rest(s)) {
                Some(t) => Some((MetaSmtpType::Subject, t, 0u64)),
                None => None,
            }
        } else {
            None
        },
    }
}

/// `spec_find` names the least index carrying the byte.
proof fn lemma_find_props(s: Seq<u8>, from: int, b: u8)
    requires
        0 <= from <= s.len(),
    ensures
        from <= spec_find(s, from, b) <= s.len(),
        spec_find(s, from, b) < s.len() ==> s[spec_find(s, from, b)] == b,
        forall|j: int| from <= j < spec_find(s, from, b) ==> s[j] != b,
    decreases s.len() - from,
{
    if from < s.len() && s[from] != b {
        lemma_find_props(s, from + 1, b);
    }
}

/// The whole parser pass over one poll, as a function: flush the held
/// record unless the queue is full, then repeatedly take the next complete
/// line off the deliverable bytes (`buf` holds the partial line carried
/// over), classify it, and hold its record for the next flush.  Returns
/// the final mode, held record, partial-line buffer, undelivered bytes,
/// the records emitted (in order), and what the poll reports: `Ready`
/// exactly when the stream ends, `Pending` on a full queue or missing
/// data.
pub open spec fn spec_smtp_drive(
    mode: SmtpMode,
    pend: Option<(MetaSmtpType, Seq<char>, u64)>,
    buf: Seq<u8>,
    d: Seq<u8>,
    qlen: int,
    end_fin: bool,
) -> (
    SmtpMode,
    Option<(MetaSmtpType, Seq<char>, u64)>,
    Seq<u8>,
    Seq<u8>,
    Seq<(MetaSmtpType, Seq<char>, u64)>,
    ParserPoll,
)
    decreases d.len(),
    via spec_smtp_drive_decreases
{
    if pend is Some && qlen >= META_QUEUE_CAP {
        (mode, pend, buf, d, Seq::empty(), ParserPoll::Pending)
    } else {
        let flushed: Seq<(MetaSmtpType, Seq<char>, u64)> = match pend {
            Some(rec) => seq![rec],
            None => Seq::empty(),
        };
        let qlen1 = qlen + flushed.len();
        let k = spec_find(d, 0, 10u8);
        if k >= d.len() {
            (
                mode,
                None,
                buf + d,
                Seq::empty(),
                flushed,
                if end_fin {
                    ParserPoll::Ready
                } else {
                    ParserPoll::Pending
                },
            )
        } else {
            let line = buf + d.take(k + 1);
            let (m2, p2, b2, d2, em, res) = spec_smtp_drive(
                spec_next_mode(mode, line),
                spec_classify_rec(mode, line),
                Seq::empty(),
                d.skip(k + 1),
                qlen1,
                end_fin,
            );
            (m2, p2, b2, d2, flushed + em, res)
        }
    }
}

#[via_fn]
proof fn spec_smtp_drive_decreases(
    mode: SmtpMode,
    pend: Option<(MetaSmtpType, Seq<char>, u64)>,
    buf: Seq<u8>,
    d: Seq<u8>,
    qlen: int,
    end_fin: bool,
) {
    lemma_find_props(d, 0, 10u8);
}

/// Flushing the held record first and continuing with the queue one longer
/// is the same pass with the record prepended to what is emitted.
proof fn lemma_drive_flush(
    mode: SmtpMode,
    rec: (MetaSmtpType, Seq<char>, u64),
    buf: Seq<u8>,
    d: Seq<u8>,
    qlen: int,
    end_fin: bool,
)
    requires
        qlen < META_QUEUE_CAP,
    ensures
        spec_smtp_drive(mode, Some(rec), buf, d, qlen, end_fin) == ({
            let (m2, p2, b2, d2, em, res) = spec_smtp_drive(
                mode,
                None,
                buf,
                d,
                qlen + 1,
                end_fin,
            );
            (m2, p2, b2, d2, seq![rec] + em, res)
        }),
{
    let k = spec_find(d, 0, 10u8);
    if k >= d.len() {
        assert(seq![rec] + Seq::<(MetaSmtpType, Seq<char>, u64)>::empty() =~= seq![rec]);
    } else {
        let line = buf + d.take(k + 1);
        let (m2, p2, b2, d2, em, res) = spec_smtp_drive(
            spec_next_mode(mode, line),
            spec_classify_rec(mode, line),
            Seq::empty(),
            d.skip(k + 1),
            qlen + 1,
            end_fin,
        );
        assert(seq![rec] + (Seq::<(MetaSmtpType, Seq<char>, u64)>::empty() + em) =~= seq![rec]
            + em);
    }
}

/// The parser pass from the first state reaches the same end as the pass
/// from the second, with `em` records already emitted between them.
pub open spec fn drive_unrolls(
    mode0: SmtpMode,
    pend0: Option<(MetaSmtpType, Seq<char>, u64)>,
    buf0: Seq<u8>,
    d0: Seq<u8>,
    q0len: int,
    ef: bool,
    em: Seq<(MetaSmtpType, Seq<char>, u64)>,
    mode: SmtpMode,
    pend: Option<(MetaSmtpType, Seq<char>, u64)>,
    buf: Seq<u8>,
    d: Seq<u8>,
    qlen: int,
) -> bool {
    spec_smtp_drive(mode0, pend0, buf0, d0, q0len, ef) == ({
        let (m2, p2, b2, d2, em2, res) = spec_smtp_drive(mode, pend, buf, d, qlen, ef);
        (m2, p2, b2, d2, em + em2, res)
    })
}

fn is_auth_login(v: &Vec<u8>) -> (r: bool)
    ensures
        r == spec_is_auth_login(v@),
{
    v.len() >= 10 && v[0] == 65u8 && v[1] == 85u8 && v[2] == 84u8 && v[3] == 72u8 && v[4] == 32u8
        && v[5] == 76u8 && v[6] == 79u8 && v[7] == 71u8 && v[8] == 73u8 && v[9] == 78u8
}

fn is_mail_from(v: &Vec<u8>) -> (r: bool)
    ensures
        r == spec_is_mail_from(v@),
{
    v.len() >= 10 && v[0] == 77u8 && v[1] == 65u8 && v[2] == 73u8 && v[3] == 76u8 && v[4] == 32u8
        && v[5] == 70u8 && v[6] == 82u8 && v[7] == 79u8 && v[8] == 77u8 && v[9] == 58u8
}

fn is_rcpt_to(v: &Vec<u8>) -> (r: bool)
    ensures
        r == spec_is_rcpt_to(v@),
{
    v.len() >= 8 && v[0] == 82u8 && v[1] == 67u8 && v[2] == 80u8 && v[3] == 84u8 && v[4] == 32u8
        && v[5] == 84u8 && v[6] == 79u8 && v[7] == 58u8
}

fn is_data(v: &Vec<u8>) -> (r: bool)
    ensures
        r == spec_is_data(v@),
{
    v.len() >= 4 && v[0] == 68u8 && v[1] == 65u8 && v[2] == 84u8 && v[3] == 65u8 && (v.len() == 4
        || v[4] == 13u8 || v[4] == 10u8)
}

fn is_subject(v: &Vec<u8>) -> (r: bool)
    ensures
        r == spec_is_subject(v@),
{
    v.len() >= 9 && v[0] == 83u8 && v[1] == 117u8 && v[2] == 98u8 && v[3] == 106u8 && v[4]
        == 101u8 && v[5] == 99u8 && v[6] == 116u8 && v[7] == 58u8 && v[8] == 32u8
}

fn is_end_dot(v: &Vec<u8>) -> (r: bool)
    ensures
        r == spec_is_end_dot(v@),
{
    v.len() >= 1 && v[0] == 46u8 && (v.len() == 1 || v[1] == 13u8 || v[1] == 10u8)
}

/// First occurrence of `b` at or after `from`, or the length when none.
fn find_byte(v: &Vec<u8>, from: usize, b: u8) -> (r: usize)
    requires
        from <= v@.len(),
    ensures
        r == spec_find(v@, from as int, b),
        from <= r <= v@.len(),
        r < v@.len() ==> v@[r as int] == b,
{
    let mut i: usize = from;
    while i < v.len() && v[i] != b
        invariant
            from <= i <= v@.len(),
            spec_find(v@, from as int, b) == spec_find(v@, i as int, b),
        decreases v@.len() - i,
    {
        i = i + 1;
    }
    i
}

/// Copy `v[from..to]` out.
fn sub_bytes(v: &Vec<u8>, from: usize, to: usize) -> (r: Vec<u8>)
    requires
        from <= to <= v@.len(),
    ensures
        r@ == v@.subrange(from as int, to as int),
{
    let mut out: Vec<u8> = Vec::new();
    let mut i: usize = from;
    while i < to
        invariant
            from <= i <= to <= v@.len(),
            out@ == v@.subrange(from as int, i as int),
        decreases to - i,
    {
        out.push(v[i]);
        assert(out@ =~= v@.subrange(from as int, i as int + 1));
        i = i + 1;
    }
    out
}

/// Parse the digit run starting at `from`: its value when it has one to
/// nineteen digits, `None` otherwise.
fn parse_decimal(v: &Vec<u8>, from: usize) -> (r: Option<u64>)
    requires
        from <= v@.len(),
    ensures
        ({
            let e = spec_digits_end(v@, from as int);
            match r {
                Some(val) => 1 <= e - from <= 19 && val == spec_decimal(v@, from as int, e),
                None => e == from || e - from > 19,
            }
        }),
{
    let mut i: usize = from;
    let mut val: u64 = 0;
    while i < v.len() && 48 <= v[i] && v[i] <= 57 && i - from < 19
        invariant
            from <= i <= v@.len(),
            i - from <= 19,
            forall|j: int| from <= j < i ==> 48 <= #[trigger] v@[j] <= 57,
            spec_digits_end(v@, from as int) == spec_digits_end(v@, i as int),
            val == spec_decimal(v@, from as int, i as int),
        decreases v@.len() - i,
    {
        proof {
            lemma_decimal_bound(v@, from as int, i as int);
            lemma_pow10_18();
            lemma_pow10_le((i - from) as nat, 18);
        }
        val = val * 10 + ((v[i] - 48) as u64);
        i = i + 1;
    }
    if i == from {
        return None;
    }
    if i < v.len() && 48 <= v[i] && v[i] <= 57 {
        // a twentieth digit: treat the hint as absent
        proof {
            lemma_digits_end_ge(v@, i as int + 1);
            assert(spec_digits_end(v@, i as int) == spec_digits_end(v@, i as int + 1));
        }
        return None;
    }
    assert(spec_digits_end(v@, i as int) == i);
    Some(val)
}

proof fn lemma_pow10_18()
    ensures
        pow10(18) == 1000000000000000000,
{
    reveal_with_fuel(pow10, 20);
}

/// Larger exponents give larger powers.
proof fn lemma_pow10_le(a: nat, b: nat)
    requires
        a <= b,
    ensures
        pow10(a) <= pow10(b),
    decreases b,
{
    if a < b {
        lemma_pow10_le(a, (b - 1) as nat);
        assert(pow10(b) == 10 * pow10((b - 1) as nat));
        assert(pow10((b - 1) as nat) >= 1) by {
            lemma_pow10_pos((b - 1) as nat);
        }
    }
}

/// The first non-digit is never before the start.
proof fn lemma_digits_end_ge(s: Seq<u8>, from: int)
    requires
        0 <= from <= s.len(),
    ensures
        spec_digits_end(s, from) >= from,
    decreases s.len() - from,
{
    if from < s.len() && 48 <= s[from] <= 57 {
        lemma_digits_end_ge(s, from + 1);
    }
}

proof fn lemma_pow10_pos(n: nat)
    ensures
        pow10(n) >= 1,
    decreases n,
{
    if n > 0 {
        lemma_pow10_pos((n - 1) as nat);
    }
}

/// Classify one complete line: the mode to continue in, and the record the
/// line carries, if any.  Strings are the line's bytes decoded as UTF-8;
/// for ASCII lines the decode always succeeds and is one char per byte.
pub fn classify_line(mode: SmtpMode, line: &Vec<u8>) -> (r: (SmtpMode, Option<MetaSmtp>))
    ensures
        r.0 == spec_next_mode(mode, line@),
        r.1 is Some <==> spec_classify_rec(mode, line@) is Some,
        r.1 matches Some(m) ==> rec_of_meta(Meta::Smtp(m)) == spec_classify_rec(
            mode,
            line@,
        ).unwrap(),
        ({
            let s = line@;
            match mode {
                SmtpMode::AuthUser => {
                    &&& (r.1 matches Some(m) ==> m is User)
                    &&& ascii_only(trim_crlf(s)) ==> (r.1 matches Some(MetaSmtp::User(u))
                        && chars_match(u@, trim_crlf(s)))
                },
                SmtpMode::AuthPass => {
                    &&& (r.1 matches Some(m) ==> m is Pass)
                    &&& ascii_only(trim_crlf(s)) ==> (r.1 matches Some(MetaSmtp::Pass(u))
                        && chars_match(u@, trim_crlf(s)))
                },
                SmtpMode::Command => {
                    if spec_is_mail_from(s) {
                        let a = spec_find(s, 10, 60u8);
                        let b = spec_find(s, a + 1, 62u8);
                        if a < s.len() && b < s.len() {
                            let addr = s.subrange(a + 1, b);
                            &&& (r.1 matches Some(m) ==> m is MailFrom)
                            &&& (r.1 matches Some(MetaSmtp::MailFrom(u, sz)) ==> sz
                                == spec_mail_size(s, b))
                            &&& ascii_only(addr) ==> (r.1 matches Some(
                                MetaSmtp::MailFrom(u, sz),
                            ) && chars_match(u@, addr))
                        } else {
                            r.1 is None
                        }
                    } else if spec_is_rcpt_to(s) {
                        let a = spec_find(s, 8, 60u8);
                        let b = spec_find(s, a + 1, 62u8);
                        if a < s.len() && b < s.len() {
                            let addr = s.subrange(a + 1, b);
                            &&& (r.1 matches Some(m) ==> m is RcptTo)
                            &&& ascii_only(addr) ==> (r.1 matches Some(MetaSmtp::RcptTo(u))
                                && chars_match(u@, addr))
                        } else {
                            r.1 is None
                        }
                    } else {
                        r.1 is None
                    }
                },
                SmtpMode::Body => {
                    if spec_is_subject(s) {
                        &&& (r.1 matches Some(m) ==> m is Subject)
                        &&& ascii_only(spec_subject_rest(s)) ==> (r.1 matches Some(
                            MetaSmtp::Subject(u),
                        ) && chars_match(u@, spec_subject_rest(s)))
                    } else {
                        r.1 is None
                    }
                },
            }
        }),
{
    match mode {
        SmtpMode::AuthUser => {
            let mut t = sub_bytes(line, 0, line.len());
            assert(t@ =~= line@);
            trim_line_end(&mut t);
            let m = match bytes_to_string(t) {
                Some(u) => Some(MetaSmtp::User(u)),
                None => None,
            };
            (SmtpMode::AuthPass, m)
        }
        SmtpMode::AuthPass => {
            let mut t = sub_bytes(line, 0, line.len());
            assert(t@ =~= line@);
            trim_line_end(&mut t);
            let m = match bytes_to_string(t) {
                Some(u) => Some(MetaSmtp::Pass(u)),
                None => None,
            };
            (SmtpMode::Command, m)
        }
        SmtpMode::Command => {
            let next = if is_auth_login(line) {
                SmtpMode::AuthUser
            } else if is_data(line) {
                SmtpMode::Body
            } else {
                SmtpMode::Command
            };
            if is_mail_from(line) {
                let a = find_byte(line, 10, 60u8);
                if a >= line.len() {
                    return (next, None);
                }
                let b = find_byte(line, a + 1, 62u8);
                if b >= line.len() {
                    return (next, None);
                }
                let addr = sub_bytes(line, a + 1, b);
                let size = mail_size(line, b);
                let m = match bytes_to_string(addr) {
                    Some(u) => Some(MetaSmtp::MailFrom(u, size)),
                    None => None,
                };
                (next, m)
            } else if is_rcpt_to(line) {
                let a = find_byte(line, 8, 60u8);
                if a >= line.len() {
                    return (next, None);
                }
                let b = find_byte(line, a + 1, 62u8);
                if b >= line.len() {
                    return (next, None);
                }
                let addr = sub_bytes(line, a + 1, b);
                let m = match bytes_to_string(addr) {
                    Some(u) => Some(MetaSmtp::RcptTo(u)),
                    None => None,
                };
                (next, m)
            } else {
                (next, None)
            }
        }
        SmtpMode::Body => {
            let next = if is_end_dot(line) {
                SmtpMode::Command
            } else {
                SmtpMode::Body
            };
            if is_subject(line) {
                let mut t = sub_bytes(line, 0, line.len());
                assert(t@ =~= line@);
                trim_line_end(&mut t);
                let rest = if t.len() >= 9 {
                    sub_bytes(&t, 9, t.len())
                } else {
                    Vec::new()
                };
                proof {
                    assert(trim_crlf(line@).skip(9) =~= trim_crlf(line@).subrange(
                        9,
                        trim_crlf(line@).len() as int,
                    ));
                }
                let m = match bytes_to_string(rest) {
                    Some(u) => Some(MetaSmtp::Subject(u)),
                    None => None,
                };
                (next, m)
            } else {
                (next, None)
            }
        }
    }
}

/// The declared `SIZE=` hint after the closing angle bracket, 0 when
/// absent or over nineteen digits.
fn mail_size(line: &Vec<u8>, gt: usize) -> (r: u64)
    requires
        gt <= line@.len(),
    ensures
        r == spec_mail_size(line@, gt as int),
{
    let e = find_byte(line, gt, 61u8);
    if e >= line.len() {
        return 0;
    }
    match parse_decimal(line, e + 1) {
        Some(v) => v,
        None => 0,
    }
}

/// Remove one trailing LF, then one trailing CR.
fn trim_line_end(v: &mut Vec<u8>)
    ensures
        final(v)@ == trim_crlf(old(v)@),
{
    if v.len() > 0 {
        if v[v.len() - 1] == 10u8 {
            v.pop();
        }
    }
    if v.len() > 0 {
        if v[v.len() - 1] == 13u8 {
            v.pop();
        }
    }
    assert(v@ =~= trim_crlf(old(v)@));
}

/// Whether the partial-line buffer is free of newlines, as a resumable
/// `readline` needs it.
fn no_newline(v: &Vec<u8>) -> (r: bool)
    ensures
        r == (forall|j: int| 0 <= j < v@.len() ==> v@[j] != 10u8),
{
    let mut i: usize = 0;
    while i < v.len()
        invariant
            i <= v@.len(),
            forall|j: int| 0 <= j < i ==> v@[j] != 10u8,
        decreases v@.len() - i,
    {
        if v[i] == 10u8 {
            return false;
        }
        i = i + 1;
    }
    true
}

/// The SMTP parser: reads the client-to-server byte stream line by line,
/// classifies each complete line, and emits the recognized records.  A
/// record that does not fit the queue is kept and emitted first on the
/// next poll, so a full queue suspends the parser.
pub struct SmtpParser {
    pub mode: SmtpMode,
    pub line: Vec<u8>,
    pub pending: Option<Meta>,
}

impl SmtpParser {
    pub fn new() -> (r: SmtpParser)
        ensures
            r.mode == SmtpMode::Command,
            r.line@.len() == 0,
            r.pending is None,
    {
        SmtpParser { mode: SmtpMode::Command, line: Vec::new(), pending: None }
    }
}

impl Default for SmtpParser {
    fn default() -> (r: Self)
        ensures
            r.mode == SmtpMode::Command,
            r.line@.len() == 0,
            r.pending is None,
    {
        SmtpParser::new()
    }
}

impl Parser for SmtpParser {
    #[verifier::rlimit(100)]
    fn poll_c2s(&mut self, stream: &mut PktStrm, meta: &mut MetaQueue) -> (r: ParserPoll)
        ensures
            ({
                let buf0 = if forall|j: int|
                    0 <= j < old(self).line@.len() ==> old(self).line@[j] != 10u8 {
                    old(self).line@
                } else {
                    Seq::<u8>::empty()
                };
                let pend0 = rec_of_pending(old(self).pending);
                let (m2, p2, b2, d2, em, res) = spec_smtp_drive(
                    old(self).mode,
                    pend0,
                    buf0,
                    deliverable(old(stream).cache@, old(stream).next_seq, old(stream).fin),
                    old(meta).q@.len() as int,
                    final(stream).fin,
                );
                &&& r == res
                &&& final(self).mode == m2
                &&& final(self).line@ == b2
                &&& rec_of_pending(final(self).pending) == p2
                &&& deliverable(final(stream).cache@, final(stream).next_seq, final(stream).fin)
                    == d2
                &&& final(meta).q@.len() == old(meta).q@.len() + em.len()
                &&& final(meta).q@.take(old(meta).q@.len() as int) == old(meta).q@
                &&& forall|i: int|
                    0 <= i < em.len() ==> rec_of_meta(
                        #[trigger] final(meta).q@[old(meta).q@.len() + i],
                    ) == em[i]
            }),
    {
        if !no_newline(&self.line) {
            // a foreign buffer state; start the line over
            self.line.clear();
        }
        let ghost mode0 = self.mode;
        let ghost pend0 = match &self.pending {
            Some(m) => Some(rec_of_meta(*m)),
            None => None::<(MetaSmtpType, Seq<char>, u64)>,
        };
        let ghost buf0 = self.line@;
        let ghost d0 = deliverable(stream.cache@, stream.next_seq, stream.fin);
        let ghost q0 = meta.q@;
        let ghost mut em_sofar: Seq<(MetaSmtpType, Seq<char>, u64)> = Seq::empty();
        loop
            invariant
                stream.wf(),
                meta.wf(),
                mode0 == old(self).mode,
                pend0 == rec_of_pending(old(self).pending),
                buf0 == (if forall|j: int|
                    0 <= j < old(self).line@.len() ==> old(self).line@[j] != 10u8 {
                    old(self).line@
                } else {
                    Seq::<u8>::empty()
                }),
                d0 == deliverable(old(stream).cache@, old(stream).next_seq, old(stream).fin),
                q0 == old(meta).q@,
                forall|j: int| 0 <= j < self.line@.len() ==> self.line@[j] != 10u8,
                meta.q@.len() == q0.len() + em_sofar.len(),
                meta.q@.take(q0.len() as int) == q0,
                forall|i: int|
                    0 <= i < em_sofar.len() ==> rec_of_meta(
                        #[trigger] meta.q@[q0.len() + i],
                    ) == em_sofar[i],
                drive_unrolls(
                    mode0,
                    pend0,
                    buf0,
                    d0,
                    q0.len() as int,
                    true,
                    em_sofar,
                    self.mode,
                    rec_of_pending(self.pending),
                    self.line@,
                    deliverable(stream.cache@, stream.next_seq, stream.fin),
                    meta.q@.len() as int,
                ),
                drive_unrolls(
                    mode0,
                    pend0,
                    buf0,
                    d0,
                    q0.len() as int,
                    false,
                    em_sofar,
                    self.mode,
                    rec_of_pending(self.pending),
                    self.line@,
                    deliverable(stream.cache@, stream.next_seq, stream.fin),
                    meta.q@.len() as int,
                ),
            decreases deliverable(stream.cache@, stream.next_seq, stream.fin).len(),
        {
            let ghost mode_pre = self.mode;
            let ghost pend_pre = match &self.pending {
                Some(m) => Some(rec_of_meta(*m)),
                None => None::<(MetaSmtpType, Seq<char>, u64)>,
            };
            let ghost buf_pre = self.line@;
            let ghost d_pre = deliverable(stream.cache@, stream.next_seq, stream.fin);
            let ghost qlen_pre = meta.q@.len() as int;
            let has_pending = self.pending.is_some();
            if has_pending {
                if meta.is_full() {
                    proof {
                        assert(em_sofar + Seq::<(MetaSmtpType, Seq<char>, u64)>::empty()
                            =~= em_sofar);
                    }
                    return ParserPoll::Pending;
                }
                let mut taken: Option<Meta> = None;
                core::mem::swap(&mut taken, &mut self.pending);
                match taken {
                    Some(m) => {
                        meta.emit(m);
                        proof {
                            let rec = rec_of_meta(m);
                            lemma_drive_flush(mode_pre, rec, buf_pre, d_pre, qlen_pre, true);
                            lemma_drive_flush(mode_pre, rec, buf_pre, d_pre, qlen_pre, false);
                            let em_old = em_sofar;
                            em_sofar = em_sofar + seq![rec];
                            assert(meta.q@.take(q0.len() as int) =~= q0);
                            assert forall|i: int|
                                0 <= i < em_sofar.len() implies rec_of_meta(
                                #[trigger] meta.q@[q0.len() + i],
                            ) == em_sofar[i] by {
                                if i == em_old.len() {
                                    assert(meta.q@[q0.len() + i] == m);
                                }
                            }
                            assert forall|ef: bool|
                                #[trigger] spec_smtp_drive(
                                    mode0,
                                    pend0,
                                    buf0,
                                    d0,
                                    q0.len() as int,
                                    ef,
                                ) == ({
                                    let (m2, p2, b2, d2, em2, res) = spec_smtp_drive(
                                        mode_pre,
                                        None,
                                        buf_pre,
                                        d_pre,
                                        qlen_pre + 1,
                                        ef,
                                    );
                                    (m2, p2, b2, d2, em_sofar + em2, res)
                                }) by {
                                let (m2, p2, b2, d2, em2, res) = spec_smtp_drive(
                                    mode_pre,
                                    None,
                                    buf_pre,
                                    d_pre,
                                    qlen_pre + 1,
                                    ef,
                                );
                                assert(em_old + (seq![rec] + em2) =~= em_sofar + em2);
                            }
                        }
                    }
                    None => {
                        proof {
                            assert(false);
                        }
                    }
                }
            }
            let ghost pend_mid = match &self.pending {
                Some(m) => Some(rec_of_meta(*m)),
                None => None::<(MetaSmtpType, Seq<char>, u64)>,
            };
            let ghost d_mid = deliverable(stream.cache@, stream.next_seq, stream.fin);
            let ghost qlen_mid = meta.q@.len() as int;
            match stream.readline(&mut self.line) {
                ReadPoll::Pending => {
                    proof {
                        lemma_find_props(d_mid, 0, 10u8);
                        assert(spec_find(d_mid, 0, 10u8) == d_mid.len());
                        assert(em_sofar + Seq::<(MetaSmtpType, Seq<char>, u64)>::empty()
                            =~= em_sofar);
                    }
                    return ParserPoll::Pending;
                }
                ReadPoll::End => {
                    proof {
                        lemma_find_props(d_mid, 0, 10u8);
                        assert(spec_find(d_mid, 0, 10u8) == d_mid.len());
                        assert(em_sofar + Seq::<(MetaSmtpType, Seq<char>, u64)>::empty()
                            =~= em_sofar);
                    }
                    return ParserPoll::Ready;
                }
                ReadPoll::Ready => {
                    let mut l: Vec<u8> = Vec::new();
                    core::mem::swap(&mut l, &mut self.line);
                    let (mode2, m) = classify_line(self.mode, &l);
                    proof {
                        let mlen = l@.len() - buf_pre.len();
                        lemma_find_props(d_mid, 0, 10u8);
                        assert(d_mid[mlen - 1] == 10u8);
                        assert(spec_find(d_mid, 0, 10u8) == mlen - 1) by {
                            if spec_find(d_mid, 0, 10u8) < mlen - 1 {
                                assert(d_mid[spec_find(d_mid, 0, 10u8)] != 10u8);
                            }
                        }
                        assert(l@ == buf_pre + d_mid.take(mlen));
                    }
                    self.mode = mode2;
                    self.pending = match m {
                        Some(ms) => Some(Meta::Smtp(ms)),
                        None => None,
                    };
                    proof {
                        let k = spec_find(d_mid, 0, 10u8);
                        assert(rec_of_pending(self.pending) == spec_classify_rec(
                            mode_pre,
                            l@,
                        ));
                        assert forall|ef: bool|
                            #[trigger] spec_smtp_drive(
                                mode_pre,
                                pend_mid,
                                buf_pre,
                                d_mid,
                                qlen_mid,
                                ef,
                            ) == ({
                                let (m2, p2, b2, d2, em2, res) = spec_smtp_drive(
                                    spec_next_mode(mode_pre, l@),
                                    spec_classify_rec(mode_pre, l@),
                                    Seq::<u8>::empty(),
                                    d_mid.skip(k + 1),
                                    qlen_mid,
                                    ef,
                                );
                                (m2, p2, b2, d2, em2, res)
                            }) by {
                            let (m2, p2, b2, d2, em2, res) = spec_smtp_drive(
                                spec_next_mode(mode_pre, l@),
                                spec_classify_rec(mode_pre, l@),
                                Seq::<u8>::empty(),
                                d_mid.skip(k + 1),
                                qlen_mid,
                                ef,
                            );
                            assert(Seq::<(MetaSmtpType, Seq<char>, u64)>::empty() + em2
                                =~= em2);
                        }
                    }
                }
            }
        }
    }
}

/// The HTTP parser: reserved; every poll completes at once.
pub struct HttpParser {
}

impl HttpParser {
    pub fn new() -> (r: HttpParser) {
        HttpParser {  }
    }
}

impl Parser for HttpParser {
}

} // verus!
