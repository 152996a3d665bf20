//! Decisions about the download mirrors: which failures are worth retrying
//! and how a primary-mirror URL maps to the fallback mirror.
use vstd::prelude::*;

use crate::text::{
    all_digits, ascii_lowercase, chars_of, contains, contains_lowercased, decimal_text,
    decimal_value, is_ascii_digit, lemma_decimal_push, occurs_at, occurs_at_exec,
};

verus! {

pub const PRIMARY_MIRROR_HOST: &'static str = "codexapp.agentsmirror.com";

pub const R2_MIRROR_HOST: &'static str = "codexapp-r2.agentsmirror.com";

/// curl exit codes that denote transport failures worth retrying.
pub open spec fn is_retryable_curl_exit(code: int) -> bool {
    code == 5 || code == 6 || code == 7 || code == 28 || code == 35 || code == 52 || code == 53
        || code == 54 || code == 55 || code == 56 || code == 58 || code == 59 || code == 60 || code
        == 67 || code == 77 || code == 80 || code == 82 || code == 83 || code == 91
}

/// Number of ASCII digits in `s` from position `p` on.
pub open spec fn digit_run(s: Seq<char>, p: int) -> nat
    decreases s.len() - p,
{
    if 0 <= p < s.len() && is_ascii_digit(s[p]) {
        1 + digit_run(s, p + 1)
    } else {
        0
    }
}

/// The curl exit code reported by an `exit=` marker at position `i`: the
/// digits that follow it, when there are some and they fit in an `i32`.
pub open spec fn exit_code_at(s: Seq<char>, i: int) -> Option<int> {
    if occurs_at(s, "exit="@, i) {
        let k = digit_run(s, i + 5);
        let v = decimal_value(s.subrange(i + 5, i + 5 + k));
        if k > 0 && v <= i32::MAX {
            Some(v as int)
        } else {
            None
        }
    } else {
        None
    }
}

/// The exit code of the last usable `exit=` marker that starts before position `n`.
pub open spec fn last_exit_code(s: Seq<char>, n: int) -> Option<int>
    decreases n,
{
    if n <= 0 {
        None
    } else {
        match exit_code_at(s, n - 1) {
            Some(c) => Some(c),
            None => last_exit_code(s, n - 1),
        }
    }
}

/// The three decimal digits of an HTTP status in 100..=999.
pub open spec fn status_digits(status: int) -> Seq<char> {
    seq![
        (48 + status / 100) as char,
        (48 + (status / 10) % 10) as char,
        (48 + status % 10) as char,
    ]
}

/// The lower-cased message names a server-side HTTP status.
pub open spec fn mentions_server_status(lower: Seq<char>, status: int) -> bool {
    ||| contains(lower, "http "@ + status_digits(status))
    ||| contains(lower, "http status "@ + status_digits(status))
    ||| contains(lower, "error: "@ + status_digits(status))
    ||| contains(lower, "status code: "@ + status_digits(status))
}

/// A failed mirror download is worth retrying: curl's last reported exit
/// code is a transport failure, or the message reports a stall, a timeout,
/// a refused connection or an HTTP 5xx status.
pub open spec fn spec_is_retryable_mirror_error(message: Seq<char>) -> bool {
    let lower = ascii_lowercase(message);
    ||| (last_exit_code(message, message.len() as int) matches Some(c) && is_retryable_curl_exit(c))
    ||| contains(lower, "download stalled"@)
    ||| contains(lower, "download exceeded total deadline"@)
    ||| contains(lower, "timeout was reached"@)
    ||| contains(lower, "operation timed out"@)
    ||| contains(lower, "failed to connect"@)
    ||| exists|status: int| 500 <= status <= 599 && mentions_server_status(lower, status)
}

/// A failed download whose message, lower-cased in ASCII, reports a stalled
/// download, an exceeded total deadline, a reached timeout, a timed-out
/// operation or a failed connection is worth retrying, whatever else the
/// message holds; so is one that names an HTTP status from 500 to 599 after
/// `http `, `http status `, `error: ` or `status code: `.
pub proof fn lemma_retryable_signals(message: Seq<char>, status: int)
    ensures
        contains(ascii_lowercase(message), "download stalled"@) ==> spec_is_retryable_mirror_error(
            message,
        ),
        contains(ascii_lowercase(message), "download exceeded total deadline"@)
            ==> spec_is_retryable_mirror_error(message),
        contains(ascii_lowercase(message), "timeout was reached"@) ==> spec_is_retryable_mirror_error(
            message,
        ),
        contains(ascii_lowercase(message), "operation timed out"@) ==> spec_is_retryable_mirror_error(
            message,
        ),
        contains(ascii_lowercase(message), "failed to connect"@) ==> spec_is_retryable_mirror_error(
            message,
        ),
        500 <= status <= 599 && (contains(ascii_lowercase(message), "http "@ + status_digits(status))
            || contains(ascii_lowercase(message), "http status "@ + status_digits(status)) || contains(
            ascii_lowercase(message),
            "error: "@ + status_digits(status),
        ) || contains(ascii_lowercase(message), "status code: "@ + status_digits(status)))
            ==> spec_is_retryable_mirror_error(message),
{
    if 500 <= status <= 599 && mentions_server_status(ascii_lowercase(message), status) {
        assert(exists|st: int|
            500 <= st <= 599 && mentions_server_status(ascii_lowercase(message), st));
    }
}

proof fn lemma_digit_run_to_end(m: Seq<char>, q: int)
    requires
        0 <= q <= m.len(),
        all_digits(m.subrange(q, m.len() as int)),
    ensures
        digit_run(m, q) == m.len() - q,
    decreases m.len() - q,
{
    if q < m.len() {
        assert(m.subrange(q, m.len() as int)[0] == m[q]);
        assert forall|i: int| 0 <= i < m.len() - (q + 1) implies is_ascii_digit(
            #[trigger] m.subrange(q + 1, m.len() as int)[i],
        ) by {
            assert(m.subrange(q + 1, m.len() as int)[i] == m.subrange(q, m.len() as int)[i + 1]);
        }
        lemma_digit_run_to_end(m, q + 1);
    }
}

proof fn lemma_last_exit_skips(m: Seq<char>, from: int, n: int)
    requires
        0 <= from < n <= m.len(),
        forall|p: int| from < p < n ==> #[trigger] exit_code_at(m, p) is None,
    ensures
        last_exit_code(m, n) == last_exit_code(m, from + 1),
    decreases n,
{
    if n > from + 1 {
        assert(exit_code_at(m, n - 1) is None);
        lemma_last_exit_skips(m, from, n - 1);
    }
}

/// A failed download whose message ends with curl's `exit=` report of a
/// transport failure (exit code 5, 6, 7, 28, 35, 52, 53, 54, 55, 56, 58, 59,
/// 60, 67, 77, 80, 82, 83 or 91) is worth retrying, whatever the message
/// holds before it, earlier `exit=` reports included: the last report counts.
pub proof fn lemma_retryable_last_curl_exit(before: Seq<char>, code: u32)
    requires
        code == 5 || code == 6 || code == 7 || code == 28 || code == 35 || code == 52 || code == 53
            || code == 54 || code == 55 || code == 56 || code == 58 || code == 59 || code == 60
            || code == 67 || code == 77 || code == 80 || code == 82 || code == 83 || code == 91,
    ensures
        spec_is_retryable_mirror_error(before + "exit="@ + decimal_text(code as nat)),
{
    reveal_strlit("exit=");
    let d = decimal_text(code as nat);
    let m = before + "exit="@ + d;
    let start = before.len() as int;
    let n = m.len() as int;
    crate::readback::lemma_decimal_text_value(code as nat);
    assert forall|p: int| start < p < n implies #[trigger] exit_code_at(m, p) is None by {
        if p < start + 5 {
            assert(m[p] == "exit="@[p - start]);
        } else {
            assert(m[p] == d[p - start - 5]);
        }
        assert(m[p] != 'e');
        assert(!occurs_at(m, "exit="@, p)) by {
            assert(m[p + 0] != "exit="@[0]);
        }
    }
    assert(m.subrange(start + 5, n) =~= d);
    lemma_digit_run_to_end(m, start + 5);
    assert(occurs_at(m, "exit="@, start)) by {
        assert forall|k: int| 0 <= k < 5 implies m[start + k] == "exit="@[k] by {}
    }
    assert(exit_code_at(m, start) == Some(code as int));
    lemma_last_exit_skips(m, start, n);
    assert(last_exit_code(m, start + 1) == Some(code as int));
}

proof fn lemma_digit_run_bound(s: Seq<char>, p: int)
    requires
        0 <= p,
    ensures
        p + digit_run(s, p) <= s.len() || digit_run(s, p) == 0,
        forall|j: int| p <= j < p + digit_run(s, p) ==> is_ascii_digit(s[j]),
        p + digit_run(s, p) < s.len() ==> !is_ascii_digit(s[p + digit_run(s, p)]),
    decreases s.len() - p,
{
    if 0 <= p < s.len() && is_ascii_digit(s[p]) {
        lemma_digit_run_bound(s, p + 1);
    }
}

proof fn lemma_digit_run_step(s: Seq<char>, p: int, q: int)
    requires
        0 <= p <= q <= s.len(),
        forall|j: int| p <= j < q ==> is_ascii_digit(#[trigger] s[j]),
    ensures
        digit_run(s, p) == (q - p) + digit_run(s, q),
    decreases q - p,
{
    if p < q {
        assert(is_ascii_digit(s[p]));
        lemma_digit_run_step(s, p + 1, q);
    }
}

/// The exit code reported by an `exit=` marker at position `i`.
fn exit_code_at_exec(s: &Vec<char>, exit: &Vec<char>, i: usize) -> (r: Option<i32>)
    requires
        exit@ == "exit="@,
        i < s@.len(),
    ensures
        r matches Some(v) ==> exit_code_at(s@, i as int) == Some(v as int),
        r is None ==> exit_code_at(s@, i as int) is None,
{
    if !occurs_at_exec(s, exit, i) {
        return None;
    }
    proof {
        reveal_strlit("exit=");
        assert(s@.len() == s.len());
    }
    let start = i + 5;
    let mut j = start;
    let mut value: u64 = 0;
    let mut over = false;
    proof {
        assert(s@.subrange(start as int, start as int) =~= Seq::<char>::empty());
    }
    while j < s.len() && s[j] >= '0' && s[j] <= '9'
        invariant
            start <= j <= s@.len(),
            s@.len() == s.len(),
            forall|k: int| start <= k < j ==> is_ascii_digit(s@[k]),
            over <==> decimal_value(s@.subrange(start as int, j as int)) > i32::MAX,
            !over ==> value == decimal_value(s@.subrange(start as int, j as int)),
        decreases s.len() - j,
    {
        let ghost prev = s@.subrange(start as int, j as int);
        let digit = (s[j] as u32 - '0' as u32) as u64;
        proof {
            assert(s@.subrange(start as int, j + 1) =~= prev.push(s@[j as int]));
            lemma_decimal_push(prev, s@[j as int]);
        }
        if !over {
            value = value * 10 + digit;
            if value > i32::MAX as u64 {
                over = true;
            }
        }
        j = j + 1;
    }
    proof {
        lemma_digit_run_step(s@, start as int, j as int);
        lemma_digit_run_bound(s@, j as int);
        assert(digit_run(s@, j as int) == 0);
    }
    if j == start || over {
        None
    } else {
        Some(value as i32)
    }
}

fn is_retryable_curl_exit_exec(code: i32) -> (r: bool)
    ensures
        r == is_retryable_curl_exit(code as int),
{
    let codes: [i32; 19] = [5, 6, 7, 28, 35, 52, 53, 54, 55, 56, 58, 59, 60, 67, 77, 80, 82, 83, 91];
    let mut k: usize = 0;
    while k < 19
        invariant
            0 <= k <= 19,
            codes@ == seq![5i32, 6, 7, 28, 35, 52, 53, 54, 55, 56, 58, 59, 60, 67, 77, 80, 82, 83, 91],
            forall|j: int| 0 <= j < k ==> codes@[j] != code,
        decreases 19 - k,
    {
        if codes[k] == code {
            return true;
        }
        k = k + 1;
    }
    assert(!is_retryable_curl_exit(code as int)) by {
        assert(forall|j: int| 0 <= j < 19 ==> codes@[j] != code);
        assert(codes@[0] != code && codes@[1] != code && codes@[2] != code && codes@[3] != code);
    }
    false
}

fn digit_char(d: u32) -> (c: char)
    requires
        d < 10,
    ensures
        c == (48 + d) as char,
{
    let c = ((d as u8) + 48) as char;
    c
}

/// The characters of `prefix` followed by the three digits of `status`.
fn status_needle(prefix: &str, status: u32) -> (r: Vec<char>)
    requires
        100 <= status <= 999,
    ensures
        r@ == prefix@ + status_digits(status as int),
{
    let mut r = chars_of(prefix);
    r.push(digit_char(status / 100));
    r.push(digit_char((status / 10) % 10));
    r.push(digit_char(status % 10));
    assert(r@ =~= prefix@ + status_digits(status as int));
    r
}

/// Whether a failed mirror download is worth retrying (see `spec_is_retryable_mirror_error`).
pub fn is_retryable_mirror_error(message: &str) -> (r: bool)
    ensures
        r == spec_is_retryable_mirror_error(message@),
{
    let s = chars_of(message);
    let exit = chars_of("exit=");
    let mut curl_exit: Option<i32> = None;
    let mut i: usize = 0;
    while i < s.len()
        invariant
            0 <= i <= s@.len(),
            s@ == message@,
            exit@ == "exit="@,
            match curl_exit {
                Some(v) => last_exit_code(s@, i as int) == Some(v as int),
                None => last_exit_code(s@, i as int) is None,
            },
        decreases s.len() - i,
    {
        let code = exit_code_at_exec(&s, &exit, i);
        if code.is_some() {
            curl_exit = code;
        }
        i = i + 1;
    }
    if let Some(code) = curl_exit {
        if is_retryable_curl_exit_exec(code) {
            return true;
        }
    }
    if contains_lowercased(&s, &chars_of("download stalled")) || contains_lowercased(
        &s,
        &chars_of("download exceeded total deadline"),
    ) || contains_lowercased(&s, &chars_of("timeout was reached")) || contains_lowercased(
        &s,
        &chars_of("operation timed out"),
    ) || contains_lowercased(&s, &chars_of("failed to connect")) {
        return true;
    }
    let ghost lower = ascii_lowercase(s@);
    let mut status: u32 = 500;
    while status <= 599
        invariant
            500 <= status <= 600,
            s@ == message@,
            lower == ascii_lowercase(s@),
            forall|st: int| 500 <= st < status ==> !mentions_server_status(lower, st),
        decreases 600 - status,
    {
        if contains_lowercased(&s, &status_needle("http ", status)) || contains_lowercased(
            &s,
            &status_needle("http status ", status),
        ) || contains_lowercased(&s, &status_needle("error: ", status)) || contains_lowercased(
            &s,
            &status_needle("status code: ", status),
        ) {
            assert(mentions_server_status(lower, status as int));
            return true;
        }
        status = status + 1;
    }
    false
}

/// What a parsed URL says of where it points.
#[derive(Debug)]
pub struct UrlParts {
    pub scheme: String,
    pub host: Option<String>,
    pub username: String,
    pub has_password: bool,
    pub port: Option<u16>,
}

pub struct UrlPartsView {
    pub scheme: Seq<char>,
    pub host: Option<Seq<char>>,
    pub username: Seq<char>,
    pub has_password: bool,
    pub port: Option<u16>,
}

impl View for UrlParts {
    type V = UrlPartsView;

    open spec fn view(&self) -> UrlPartsView {
        UrlPartsView {
            scheme: self.scheme@,
            host: match self.host {
                Some(h) => Some(h@),
                None => None,
            },
            username: self.username@,
            has_password: self.has_password,
            port: self.port,
        }
    }
}

/// The parts of the absolute URL that the url crate parses from `raw`.
pub uninterp spec fn parsed_url(raw: Seq<char>) -> Option<UrlPartsView>;

/// The URL that the url crate gives for `raw` with its host set to `host`.
pub uninterp spec fn url_with_host(raw: Seq<char>, host: Seq<char>) -> Option<Seq<char>>;

/// `url::Url::parse`, read through `scheme`, `host_str`, `username`,
/// `password` and `port`: the parts of the absolute URL in `raw`, or `None`
/// when `raw` is not one. The contract claims that the parts depend on
/// `raw` alone.
#[verifier::external_body]
fn url_parts(raw: &str) -> (r: Option<UrlParts>)
    ensures
        r matches Some(p) ==> parsed_url(raw@) == Some(p@),
        r is None ==> parsed_url(raw@) is None,
{
    let u = match url::Url::parse(raw) {
        Ok(u) => u,
        Err(_) => return None,
    };
    let host = match u.host_str() {
        Some(h) => Some(h.to_string()),
        None => None,
    };
    Some(UrlParts {
        scheme: u.scheme().to_string(),
        host,
        username: u.username().to_string(),
        has_password: u.password().is_some(),
        port: u.port(),
    })
}

/// A host name that the url crate keeps as it is written: dot-separated
/// labels of lowercase ASCII letters, digits and `-`, each starting with a
/// letter (so the name is never read as an IPv4 address), none ending with
/// `-` and none holding `--` (as an `xn--` label does); such labels pass the
/// IDNA step unchanged.
pub open spec fn plain_host(host: Seq<char>) -> bool {
    &&& host.len() > 0
    &&& 'a' <= host[0] <= 'z'
    &&& forall|i: int|
        0 <= i < host.len() ==> ('a' <= #[trigger] host[i] <= 'z') || ('0' <= host[i] <= '9')
            || host[i] == '.' || host[i] == '-'
    &&& forall|i: int| 0 <= i < host.len() - 1 && host[i] == '.' ==> 'a' <= #[trigger] host[i + 1] <= 'z'
    &&& forall|i: int| 0 <= i < host.len() - 1 && #[trigger] host[i + 1] == '.' ==> host[i] != '-'
    &&& forall|i: int| 0 <= i < host.len() - 1 ==> !(host[i] == '-' && #[trigger] host[i + 1] == '-')
    &&& host.last() != '.' && host.last() != '-'
}

/// The URL parsed is an `https` one.
pub open spec fn is_https(parsed: Option<UrlPartsView>) -> bool {
    parsed matches Some(u) && u.scheme == "https"@
}

/// The URL parsed has host `host`.
pub open spec fn has_host(parsed: Option<UrlPartsView>, host: Seq<char>) -> bool {
    parsed matches Some(u) && u.host == Some(host)
}

/// `url::Url::set_host` on the URL parsed from `raw`, then its text; `None`
/// when `raw` does not parse or the host is refused. The contract claims
/// that the outcome depends on `raw` and `host` alone. For an `https` URL
/// (never cannot-be-a-base) and a plain name (see `plain_host`), which the
/// url crate accepts and stores unchanged, it also claims that the host is
/// set and that the text, parsed again, has `host` as its host.
#[verifier::external_body]
fn replace_url_host(raw: &str, host: &str) -> (r: Option<String>)
    ensures
        r matches Some(s) ==> url_with_host(raw@, host@) == Some(s@),
        r is None ==> url_with_host(raw@, host@) is None,
        is_https(parsed_url(raw@)) && plain_host(host@) ==> r is Some && has_host(
            parsed_url(r.unwrap()@),
            host@,
        ),
{
    let mut url = url::Url::parse(raw).ok()?;
    url.set_host(Some(host)).ok()?;
    Some(url.into())
}

/// The URL points at the primary mirror itself: `https`, exactly the
/// primary host, no user name, password or explicit port.
pub open spec fn spec_is_trusted_primary(p: UrlPartsView) -> bool {
    &&& p.scheme == "https"@
    &&& p.host == Some(PRIMARY_MIRROR_HOST@)
    &&& p.username.len() == 0
    &&& !p.has_password
    &&& p.port is None
}

/// Whether parsed URL parts point at the primary mirror itself (see
/// `spec_is_trusted_primary`).
pub fn is_trusted_primary(parts: &UrlParts) -> (r: bool)
    ensures
        r == spec_is_trusted_primary(parts@),
{
    let host_ok = match &parts.host {
        Some(h) => crate::text::str_eq(h.as_str(), PRIMARY_MIRROR_HOST),
        None => false,
    };
    crate::text::str_eq(parts.scheme.as_str(), "https") && host_ok
        && parts.username.as_str().is_empty() && !parts.has_password && parts.port.is_none()
}

/// The fallback-mirror URL for `raw`: the same URL on the R2 mirror host,
/// for a URL that points at the primary mirror itself; `None` otherwise.
pub open spec fn spec_r2_fallback_url(raw: Seq<char>) -> Option<Seq<char>> {
    match parsed_url(raw) {
        Some(p) => if spec_is_trusted_primary(p) {
            url_with_host(raw, R2_MIRROR_HOST@)
        } else {
            None
        },
        None => None,
    }
}

/// Maps a primary-mirror URL to the fallback mirror (see `spec_r2_fallback_url`).
pub fn r2_fallback_url(raw: &str) -> (r: Option<String>)
    ensures
        match spec_r2_fallback_url(raw@) {
            Some(u) => r matches Some(s) && s@ == u,
            None => r is None,
        },
        parsed_url(raw@) matches Some(p) && spec_is_trusted_primary(p) ==> r is Some,
        r matches Some(s) ==> parsed_url(s@) matches Some(p) && p.host == Some(R2_MIRROR_HOST@)
            && !spec_is_trusted_primary(p),
{
    let parts = url_parts(raw)?;
    if !is_trusted_primary(&parts) {
        return None;
    }
    proof {
        reveal_strlit("codexapp-r2.agentsmirror.com");
        reveal_strlit("codexapp.agentsmirror.com");
        assert(R2_MIRROR_HOST@[8] != PRIMARY_MIRROR_HOST@[8]);
        assert(plain_host(R2_MIRROR_HOST@));
    }
    replace_url_host(raw, R2_MIRROR_HOST)
}

} // verus!
