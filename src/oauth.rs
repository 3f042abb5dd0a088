use vstd::prelude::*;

use crate::duration::{parse_u64, u64_of};
use crate::form::{
    form_value, get_form_value, get_text_member, get_uint_member, json_members, members_view,
    read_json_object, text_member, uint_member, JsonScalar, ScalarView,
};
use crate::model::opt_view;
use crate::text::{chars_of, contains_text, decimal_text, has_substring, push_decimal};
use crate::vault::{TokenPair, TokenView};

verus! {

/// What the authorization server answered to the device-code request.
#[derive(Debug, Clone)]
pub struct DeviceCodeResponse {
    pub device_code: String,
    pub user_code: String,
    pub verification_uri: String,
    pub verification_uri_complete: Option<String>,
    pub expires_in: u64,
    pub interval: u64,
}

pub struct DeviceCodeView {
    pub device_code: Seq<char>,
    pub user_code: Seq<char>,
    pub verification_uri: Seq<char>,
    pub verification_uri_complete: Option<Seq<char>>,
    pub expires_in: u64,
    pub interval: u64,
}

impl View for DeviceCodeResponse {
    type V = DeviceCodeView;

    open spec fn view(&self) -> DeviceCodeView {
        DeviceCodeView {
            device_code: self.device_code@,
            user_code: self.user_code@,
            verification_uri: self.verification_uri@,
            verification_uri_complete: opt_view(self.verification_uri_complete),
            expires_in: self.expires_in,
            interval: self.interval,
        }
    }
}

/// One poll's answer in the device flow.
#[derive(Debug)]
pub enum PollResult {
    /// The user has not authorized yet.
    Pending,
    /// The server asks to poll less often, from now on at `new_interval` seconds.
    SlowDown { new_interval: u64 },
    /// The user authorized; here are the tokens.
    Success(TokenPair),
    /// The flow failed for good; the message says why.
    Error(String),
}

pub enum PollView {
    Pending,
    SlowDown(u64),
    Success(TokenView),
    Error(Seq<char>),
}

impl View for PollResult {
    type V = PollView;

    open spec fn view(&self) -> PollView {
        match self {
            PollResult::Pending => PollView::Pending,
            PollResult::SlowDown { new_interval } => PollView::SlowDown(*new_interval),
            PollResult::Success(p) => PollView::Success(p@),
            PollResult::Error(m) => PollView::Error(m@),
        }
    }
}

/// A repository the user can reach.
#[derive(Debug, Clone)]
pub struct GitHubRepository {
    pub id: u64,
    pub name: String,
    pub full_name: String,
    pub private: bool,
    pub html_url: String,
}

/// Why an answer of the authorization server could not be used.
#[derive(Debug, Clone, PartialEq, Eq)]
pub enum OAuthError {
    /// The server offers no device flow (HTTP 404).
    DeviceFlowUnavailable,
    /// The server refused the request with this status and body.
    RequestFailed(u16, String),
    /// The device-code answer has no device code.
    MissingDeviceCode,
    /// The device-code answer has no user code.
    MissingUserCode,
    /// The token answer has no access token.
    MissingAccessToken,
}

pub open spec fn is_success(status: u16) -> bool {
    200 <= status && status < 300
}

/// Where the server sends users when it names no page.
pub open spec fn default_verification_uri() -> Seq<char> {
    "https://github.com/login/device"@
}

/// The interval announced with a `slow_down`, raised by five seconds
/// (saturating).
pub open spec fn raised_interval(n: u64) -> u64 {
    if n > u64::MAX - 5 {
        u64::MAX
    } else {
        (n + 5) as u64
    }
}

/// The message for an error code of the token endpoint; unknown codes
/// carry the server's description, or the code itself.
pub open spec fn error_message(code: Seq<char>, description: Option<Seq<char>>) -> Seq<char> {
    if code == "expired_token"@ {
        "Device code has expired. Please start a new authorization."@
    } else if code == "incorrect_device_code"@ {
        "Invalid device code. Please start a new authorization."@
    } else if code == "access_denied"@ {
        "Authorization was cancelled. Please try again."@
    } else if code == "device_flow_disabled"@ {
        "Device flow is not enabled for this application."@
    } else if code == "unsupported_grant_type"@ {
        "Unsupported grant type. This is an application error."@
    } else if code == "incorrect_client_credentials"@ {
        "Invalid client credentials. This is an application error."@
    } else {
        "Token request failed: "@ + match description {
            Some(d) => d,
            None => code,
        }
    }
}

/// The poll result for a JSON error answer.
pub open spec fn json_error_result(ms: Option<Seq<(Seq<char>, ScalarView)>>) -> PollView {
    let code = text_member(ms, "error"@)->0;
    if code == "authorization_pending"@ {
        PollView::Pending
    } else if code == "slow_down"@ {
        PollView::SlowDown(
            raised_interval(
                match uint_member(ms, "interval"@) {
                    Some(n) => n,
                    None => 5,
                },
            ),
        )
    } else {
        PollView::Error(error_message(code, text_member(ms, "error_description"@)))
    }
}

/// The tokens of a success answer, JSON first, then form-encoded.
pub open spec fn token_answer(body: Seq<char>) -> Option<TokenView> {
    let ms = json_members(body);
    match text_member(ms, "access_token"@) {
        Some(a) => Some(TokenView { access_token: a, refresh_token: text_member(ms, "refresh_token"@) }),
        None => match form_value(body, "access_token"@, true) {
            Some(a) => Some(
                TokenView { access_token: a, refresh_token: form_value(body, "refresh_token"@, true) },
            ),
            None => None,
        },
    }
}

/// How a poll of the token endpoint reads, from its status and body. JSON
/// answers are read first; form-encoded ones are accepted too.
pub open spec fn poll_outcome(status: u16, body: Seq<char>) -> Result<PollView, OAuthError> {
    let ms = json_members(body);
    let json_error = text_member(ms, "error"@) is Some;
    if status == 400 {
        if json_error {
            Ok(json_error_result(ms))
        } else if has_substring(body, "authorization_pending"@) {
            Ok(PollView::Pending)
        } else if has_substring(body, "slow_down"@) {
            Ok(
                PollView::SlowDown(
                    match form_value(body, "interval"@, false) {
                        Some(v) => match u64_of(v) {
                            Some(n) => raised_interval(n),
                            None => 5,
                        },
                        None => 5,
                    },
                ),
            )
        } else {
            Ok(PollView::Error("Token request failed: "@ + body))
        }
    } else if json_error {
        Ok(json_error_result(ms))
    } else if !is_success(status) {
        Ok(PollView::Error("Token request failed with status: "@ + decimal_text(status as nat)))
    } else {
        match token_answer(body) {
            Some(t) => Ok(PollView::Success(t)),
            None => Err(OAuthError::MissingAccessToken),
        }
    }
}

/// How the device-code answer reads: JSON with all fields first, else
/// form-encoded with defaults for what is missing.
pub open spec fn device_code_outcome(status: u16, body: Seq<char>) -> Result<
    DeviceCodeView,
    OAuthError,
> {
    let ms = json_members(body);
    if status == 404 {
        Err(OAuthError::DeviceFlowUnavailable)
    } else if !is_success(status) {
        Err(OAuthError::RequestFailed(status, arbitrary()))
    } else if text_member(ms, "device_code"@) is Some && text_member(ms, "user_code"@) is Some
        && text_member(ms, "verification_uri"@) is Some && uint_member(ms, "expires_in"@) is Some
        && uint_member(ms, "interval"@) is Some {
        Ok(
            DeviceCodeView {
                device_code: text_member(ms, "device_code"@)->0,
                user_code: text_member(ms, "user_code"@)->0,
                verification_uri: text_member(ms, "verification_uri"@)->0,
                verification_uri_complete: text_member(ms, "verification_uri_complete"@),
                expires_in: uint_member(ms, "expires_in"@)->0,
                interval: uint_member(ms, "interval"@)->0,
            },
        )
    } else if form_value(body, "device_code"@, true) is None {
        Err(OAuthError::MissingDeviceCode)
    } else if form_value(body, "user_code"@, true) is None {
        Err(OAuthError::MissingUserCode)
    } else {
        let code = form_value(body, "user_code"@, true)->0;
        let uri = match form_value(body, "verification_uri"@, true) {
            Some(u) => u,
            None => default_verification_uri(),
        };
        Ok(
            DeviceCodeView {
                device_code: form_value(body, "device_code"@, true)->0,
                user_code: code,
                verification_uri: uri,
                verification_uri_complete: Some(
                    match form_value(body, "verification_uri_complete"@, true) {
                        Some(c) => c,
                        None => uri + "?user_code="@ + code,
                    },
                ),
                expires_in: form_number_or(body, "expires_in"@, 900),
                interval: form_number_or(body, "interval"@, 5),
            },
        )
    }
}

/// A number from a form pair, or a default where it is missing or no number.
pub open spec fn form_number_or(body: Seq<char>, key: Seq<char>, default: u64) -> u64 {
    match form_value(body, key, true) {
        Some(v) => match u64_of(v) {
            Some(n) => n,
            None => default,
        },
        None => default,
    }
}

fn text_from(s: &str) -> (r: String)
    ensures
        r@ == s@,
{
    String::from_str(s)
}

fn error_message_of(code: &String, description: Option<String>) -> (r: String)
    ensures
        r@ == error_message(code@, opt_view(description)),
{
    if code.eq(&text_from("expired_token")) {
        text_from("Device code has expired. Please start a new authorization.")
    } else if code.eq(&text_from("incorrect_device_code")) {
        text_from("Invalid device code. Please start a new authorization.")
    } else if code.eq(&text_from("access_denied")) {
        text_from("Authorization was cancelled. Please try again.")
    } else if code.eq(&text_from("device_flow_disabled")) {
        text_from("Device flow is not enabled for this application.")
    } else if code.eq(&text_from("unsupported_grant_type")) {
        text_from("Unsupported grant type. This is an application error.")
    } else if code.eq(&text_from("incorrect_client_credentials")) {
        text_from("Invalid client credentials. This is an application error.")
    } else {
        let mut m = text_from("Token request failed: ");
        match description {
            Some(d) => m.append(d.as_str()),
            None => m.append(code.as_str()),
        }
        m
    }
}

fn json_error_of(ms: &Option<Vec<(String, JsonScalar)>>, code: String) -> (r: PollResult)
    requires
        text_member(members_view(*ms), "error"@) == Some(code@),
    ensures
        r@ == json_error_result(members_view(*ms)),
{
    if code.eq(&text_from("authorization_pending")) {
        PollResult::Pending
    } else if code.eq(&text_from("slow_down")) {
        let n = match get_uint_member(ms, "interval") {
            Some(n) => n,
            None => 5,
        };
        PollResult::SlowDown { new_interval: raise(n) }
    } else {
        PollResult::Error(error_message_of(&code, get_text_member(ms, "error_description")))
    }
}

fn raise(n: u64) -> (r: u64)
    ensures
        r == raised_interval(n),
{
    if n > u64::MAX - 5 {
        u64::MAX
    } else {
        n + 5
    }
}

fn token_answer_of(body: &str) -> (r: Option<TokenPair>)
    ensures
        match r {
            Some(p) => token_answer(body@) == Some(p@),
            None => token_answer(body@) is None,
        },
{
    let ms = read_json_object(body);
    match get_text_member(&ms, "access_token") {
        Some(a) => Some(TokenPair { access_token: a, refresh_token: get_text_member(&ms, "refresh_token") }),
        None => match get_form_value(body, "access_token", true) {
            Some(a) => Some(
                TokenPair {
                    access_token: a,
                    refresh_token: get_form_value(body, "refresh_token", true),
                },
            ),
            None => None,
        },
    }
}

/// Reads the token endpoint's answer to one poll of the device flow.
pub fn interpret_poll_response(status: u16, body: &str) -> (r: Result<PollResult, OAuthError>)
    ensures
        match r {
            Ok(p) => poll_outcome(status, body@) == Ok::<PollView, OAuthError>(p@),
            Err(e) => poll_outcome(status, body@) == Err::<PollView, OAuthError>(e),
        },
{
    let ms = read_json_object(body);
    let error_code = get_text_member(&ms, "error");
    if status == 400 {
        match error_code {
            Some(code) => Ok(json_error_of(&ms, code)),
            None => {
                let chars = chars_of(body);
                if contains_text(&chars, &chars_of("authorization_pending")) {
                    Ok(PollResult::Pending)
                } else if contains_text(&chars, &chars_of("slow_down")) {
                    let n = match get_form_value(body, "interval", false) {
                        Some(v) => match parse_u64(v.as_str()) {
                            Some(n) => raise(n),
                            None => 5,
                        },
                        None => 5,
                    };
                    Ok(PollResult::SlowDown { new_interval: n })
                } else {
                    let mut m = text_from("Token request failed: ");
                    m.append(body);
                    Ok(PollResult::Error(m))
                }
            },
        }
    } else {
        match error_code {
            Some(code) => Ok(json_error_of(&ms, code)),
            None => {
                if !(200 <= status && status < 300) {
                    let mut m = text_from("Token request failed with status: ");
                    push_decimal(&mut m, status as u64);
                    Ok(PollResult::Error(m))
                } else {
                    match token_answer_of(body) {
                        Some(p) => Ok(PollResult::Success(p)),
                        None => Err(OAuthError::MissingAccessToken),
                    }
                }
            },
        }
    }
}

fn form_number(body: &str, key: &str, default: u64) -> (r: u64)
    ensures
        r == form_number_or(body@, key@, default),
{
    match get_form_value(body, key, true) {
        Some(v) => match parse_u64(v.as_str()) {
            Some(n) => n,
            None => default,
        },
        None => default,
    }
}

/// Reads the answer to the device-code request.
pub fn interpret_device_code_response(status: u16, body: &str) -> (r: Result<
    DeviceCodeResponse,
    OAuthError,
>)
    ensures
        match r {
            Ok(d) => device_code_outcome(status, body@) == Ok::<DeviceCodeView, OAuthError>(d@),
            Err(OAuthError::RequestFailed(s, b)) => device_code_outcome(status, body@) is Err
                && !is_success(status) && status != 404 && s == status && b@ == body@,
            Err(e) => device_code_outcome(status, body@) == Err::<DeviceCodeView, OAuthError>(e),
        },
{
    if status == 404 {
        return Err(OAuthError::DeviceFlowUnavailable);
    }
    if !(200 <= status && status < 300) {
        return Err(OAuthError::RequestFailed(status, text_from(body)));
    }
    let ms = read_json_object(body);
    let dc = get_text_member(&ms, "device_code");
    let uc = get_text_member(&ms, "user_code");
    let vu = get_text_member(&ms, "verification_uri");
    let ex = get_uint_member(&ms, "expires_in");
    let iv = get_uint_member(&ms, "interval");
    match (dc, uc, vu, ex, iv) {
        (Some(device_code), Some(user_code), Some(verification_uri), Some(expires_in), Some(interval)) => {
            return Ok(
                DeviceCodeResponse {
                    device_code,
                    user_code,
                    verification_uri,
                    verification_uri_complete: get_text_member(&ms, "verification_uri_complete"),
                    expires_in,
                    interval,
                },
            );
        },
        _ => {},
    }
    let device_code = match get_form_value(body, "device_code", true) {
        Some(d) => d,
        None => {
            return Err(OAuthError::MissingDeviceCode);
        },
    };
    let user_code = match get_form_value(body, "user_code", true) {
        Some(u) => u,
        None => {
            return Err(OAuthError::MissingUserCode);
        },
    };
    let verification_uri = match get_form_value(body, "verification_uri", true) {
        Some(u) => u,
        None => text_from("https://github.com/login/device"),
    };
    let complete = match get_form_value(body, "verification_uri_complete", true) {
        Some(c) => c,
        None => {
            let mut c = verification_uri.clone();
            c.append("?user_code=");
            c.append(user_code.as_str());
            c
        },
    };
    Ok(
        DeviceCodeResponse {
            device_code,
            user_code,
            verification_uri,
            verification_uri_complete: Some(complete),
            expires_in: form_number(body, "expires_in", 900),
            interval: form_number(body, "interval", 5),
        },
    )
}

/// How a refresh answer reads: the new tokens of a successful JSON or
/// form-encoded answer.
pub open spec fn refresh_outcome(status: u16, body: Seq<char>) -> Result<TokenView, OAuthError> {
    if !is_success(status) {
        Err(OAuthError::RequestFailed(status, arbitrary()))
    } else {
        match token_answer(body) {
            Some(t) => Ok(t),
            None => Err(OAuthError::MissingAccessToken),
        }
    }
}

/// Reads the answer to a refresh-token request.
pub fn interpret_refresh_response(status: u16, body: &str) -> (r: Result<TokenPair, OAuthError>)
    ensures
        match r {
            Ok(p) => refresh_outcome(status, body@) == Ok::<TokenView, OAuthError>(p@),
            Err(OAuthError::RequestFailed(s, b)) => !is_success(status) && s == status && b@
                == body@,
            Err(e) => refresh_outcome(status, body@) == Err::<TokenView, OAuthError>(e),
        },
{
    if !(200 <= status && status < 300) {
        return Err(OAuthError::RequestFailed(status, text_from(body)));
    }
    match token_answer_of(body) {
        Some(p) => Ok(p),
        None => Err(OAuthError::MissingAccessToken),
    }
}

/// Where a device-flow poll loop stands: the interval between polls and the
/// seconds waited so far, out of the code's lifetime.
#[derive(Debug, Clone, Copy, PartialEq, Eq, Structural)]
pub struct DevicePoller {
    pub interval: u64,
    pub elapsed: u64,
    pub expires_in: u64,
}

/// What the poll loop does next.
#[derive(Debug)]
pub enum PollerAction {
    /// Wait this many seconds, then poll again.
    Wait(u64),
    /// The flow succeeded with these tokens.
    Finish(TokenPair),
    /// The flow failed; the message says why.
    Abort(String),
}

/// What the poll loop does after a `Pending` or `SlowDown` at interval `iv`.
pub open spec fn waited(p: DevicePoller, iv: u64) -> (DevicePoller, bool) {
    if p.elapsed as int + iv as int > p.expires_in as int {
        (DevicePoller { interval: iv, ..p }, false)
    } else {
        (DevicePoller { interval: iv, elapsed: (p.elapsed + iv) as u64, ..p }, true)
    }
}

impl DevicePoller {
    /// A poll loop for a fresh device code.
    pub fn new(resp: &DeviceCodeResponse) -> (r: DevicePoller)
        ensures
            r.interval == resp.interval,
            r.elapsed == 0,
            r.expires_in == resp.expires_in,
    {
        DevicePoller { interval: resp.interval, elapsed: 0, expires_in: resp.expires_in }
    }

    /// Takes one poll's result: waits on `Pending` and, at the new interval,
    /// on `SlowDown`, while the code is still valid; ends on success and on
    /// errors.
    pub fn step(&mut self, result: PollResult) -> (r: PollerAction)
        ensures
            match result@ {
                PollView::Pending => {
                    let (next, go) = waited(*old(self), old(self).interval);
                    &&& *final(self) == next
                    &&& go ==> (r matches PollerAction::Wait(n) && n == old(self).interval)
                    &&& !go ==> (r matches PollerAction::Abort(m) && m@
                        == "Device code has expired. Please start a new authorization."@)
                },
                PollView::SlowDown(iv) => {
                    let (next, go) = waited(*old(self), iv);
                    &&& *final(self) == next
                    &&& go ==> (r matches PollerAction::Wait(n) && n == iv)
                    &&& !go ==> (r matches PollerAction::Abort(m) && m@
                        == "Device code has expired. Please start a new authorization."@)
                },
                PollView::Success(t) => *final(self) == *old(self) && (r matches PollerAction::Finish(
                    p,
                ) && p@ == t),
                PollView::Error(msg) => *final(self) == *old(self) && (r matches PollerAction::Abort(
                    m,
                ) && m@ == msg),
            },
    {
        let iv = match &result {
            PollResult::Pending => self.interval,
            PollResult::SlowDown { new_interval } => *new_interval,
            PollResult::Success(_) => 0,
            PollResult::Error(_) => 0,
        };
        match result {
            PollResult::Success(p) => PollerAction::Finish(p),
            PollResult::Error(m) => PollerAction::Abort(m),
            _ => {
                self.interval = iv;
                if self.elapsed as u128 + iv as u128 > self.expires_in as u128 {
                    PollerAction::Abort(
                        text_from("Device code has expired. Please start a new authorization."),
                    )
                } else {
                    self.elapsed = self.elapsed + iv;
                    PollerAction::Wait(iv)
                }
            },
        }
    }
}

} // verus!
