//! Response construction: synthesised responses with a buffered body, and the head of a forwarded
//! response whose body streams. Construction is total: no status and no header that a filter sets
//! can stop it.
use hyper::StatusCode;
use vstd::prelude::*;

use crate::headers::{
    copy_headers, copy_headers_preserving, show_headers, to_wire, Header, RawHeader,
};

verus! {

/// The status that stands in for one that no response can have: bad gateway.
pub const BAD_GATEWAY: u16 = 502;

/// A response as a filter, or the control plane, gives it.
#[derive(Debug)]
pub struct HttpResponse {
    pub status: u16,
    pub headers: Vec<Header>,
    pub body: Vec<u8>,
}

/// [`HttpResponse`] as plain values.
#[verifier::ext_equal]
pub struct HttpResponseView {
    pub status: u16,
    pub headers: Seq<crate::headers::HeaderView>,
    pub body: Seq<u8>,
}

impl View for HttpResponse {
    type V = HttpResponseView;

    open spec fn view(&self) -> HttpResponseView {
        HttpResponseView {
            status: self.status,
            headers: crate::headers::headers_view(self.headers@),
            body: self.body@,
        }
    }
}

/// The status and the header fields of a response as they go over the wire.
#[derive(Debug)]
pub struct ResponseHead {
    pub status: u16,
    pub headers: Vec<RawHeader>,
}

/// [`ResponseHead`] as plain values.
#[verifier::ext_equal]
pub struct HeadView {
    pub status: u16,
    pub headers: Seq<crate::headers::RawView>,
}

impl View for ResponseHead {
    type V = HeadView;

    open spec fn view(&self) -> HeadView {
        HeadView { status: self.status, headers: crate::headers::raw_view(self.headers@) }
    }
}

impl HeadView {
    /// Whether the head can be sent.
    pub open spec fn sendable(self) -> bool {
        &&& status_ok(self.status)
        &&& forall|i: int|
            0 <= i < self.headers.len() ==> crate::headers::sendable(#[trigger] self.headers[i])
    }

    /// Whether the head has a field of a name.
    pub open spec fn has(self, name: Seq<char>) -> bool {
        exists|i: int|
            0 <= i < self.headers.len() && (#[trigger] self.headers[i]).name
                == crate::headers::lower(name)
    }
}

/// A response as it goes over the wire, with its whole body.
#[derive(Debug)]
pub struct Reply {
    pub head: ResponseHead,
    pub body: Vec<u8>,
}

/// [`Reply`] as plain values.
#[verifier::ext_equal]
pub struct ReplyView {
    pub head: HeadView,
    pub body: Seq<u8>,
}

impl View for Reply {
    type V = ReplyView;

    open spec fn view(&self) -> ReplyView {
        ReplyView { head: self.head@, body: self.body@ }
    }
}

impl ResponseHead {
    /// Whether the head has a field of a name, in any case.
    pub fn contains_header(&self, name: &str) -> (r: bool)
        ensures
            r == self@.has(name@),
    {
        let wanted: String = name.to_ascii_lowercase();
        let mut i: usize = 0;
        while i < self.headers.len()
            invariant
                i <= self.headers@.len(),
                wanted@ == crate::headers::lower(name@),
                forall|j: int| 0 <= j < i ==> (#[trigger] self@.headers[j]).name != wanted@,
            decreases self.headers@.len() - i,
        {
            assert(self@.headers[i as int] == self.headers@[i as int]@);
            if self.headers[i].name == wanted {
                return true;
            }
            i += 1;
        }
        false
    }
}

/// Whether a number is a status that a response can have: three digits.
pub open spec fn status_ok(status: u16) -> bool {
    100 <= status <= 999
}

/// A status, with bad gateway in the place of one that no response can have.
pub open spec fn clamped(status: u16) -> u16 {
    if status_ok(status) {
        status
    } else {
        BAD_GATEWAY
    }
}

/// `StatusCode::from_u16` with the status read back by `StatusCode::as_u16`: the numbers of three
/// digits are statuses, and every other number is refused.
#[verifier::external_body]
fn status_code(status: u16) -> (r: Option<u16>)
    ensures
        r == if status_ok(status) {
            Some(status)
        } else {
            None
        },
{
    match StatusCode::from_u16(status) {
        Ok(code) => Some(code.as_u16()),
        Err(_) => None,
    }
}

/// Replaces a status that no response can have by bad gateway.
pub fn clamp_status(status: u16) -> (r: u16)
    ensures
        r == clamped(status),
{
    match status_code(status) {
        Some(code) => code,
        None => BAD_GATEWAY,
    }
}

/// What goes over the wire for a response.
pub open spec fn reply_of(resp: HttpResponseView) -> ReplyView {
    ReplyView {
        head: HeadView {
            status: clamped(resp.status),
            headers: crate::headers::copied(resp.headers),
        },
        body: resp.body,
    }
}

/// Builds a synthesised response. A status that no response can have becomes bad gateway, header
/// fields that are invalid are dropped, and the body is kept.
pub fn http_response(resp: HttpResponse) -> (r: Reply)
    ensures
        r@ == reply_of(resp@),
{
    let status: u16 = clamp_status(resp.status);
    let headers: Vec<RawHeader> = copy_headers(resp.headers.as_slice());
    Reply { head: ResponseHead { status, headers }, body: resp.body }
}

/// Builds the head of a forwarded response from the status and the fields that the filters left,
/// and the fields that the upstream sent. A field that no filter touched keeps the bytes that the
/// upstream sent.
pub fn stream_response(status: u16, headers: &[Header], original: &[RawHeader]) -> (r:
    ResponseHead)
    ensures
        r@.status == clamped(status),
        r@.headers == crate::headers::preserved(
            crate::headers::headers_view(headers@),
            crate::headers::raw_view(original@),
            crate::headers::shown_of(crate::headers::raw_view(original@)),
        ).0,
{
    let shown: Vec<String> = show_headers(original);
    proof {
        assert(crate::headers::texts_view(shown@).len() == shown@.len());
        assert(crate::headers::shown_of(crate::headers::raw_view(original@)).len()
            == original@.len());
    }
    stream_head(status, headers, original, &shown)
}

/// Builds the head of a forwarded response, given the texts that the received fields show as.
pub fn stream_head(
    status: u16,
    headers: &[Header],
    original: &[RawHeader],
    shown: &Vec<String>,
) -> (r: ResponseHead)
    requires
        original@.len() == shown@.len(),
    ensures
        r@.status == clamped(status),
        r@.headers == crate::headers::preserved(
            crate::headers::headers_view(headers@),
            crate::headers::raw_view(original@),
            crate::headers::texts_view(shown@),
        ).0,
{
    let status: u16 = clamp_status(status);
    let headers: Vec<RawHeader> = copy_headers_preserving(headers, original, shown);
    ResponseHead { status, headers }
}

/// The header field that marks a response as the proxy's own.
pub open spec fn fault_field(fault: Seq<char>) -> crate::headers::RawView {
    crate::headers::RawView {
        name: "x-plecto-fault"@,
        value: vstd::utf8::encode_utf8(fault),
    }
}

/// The header field that says when to try again.
pub open spec fn retry_field(secs: nat) -> crate::headers::RawView {
    crate::headers::RawView {
        name: "retry-after"@,
        value: vstd::utf8::encode_utf8(decimal(secs)),
    }
}

/// A number in decimal digits, without leading zeros.
pub open spec fn decimal(n: nat) -> Seq<char>
    decreases n,
{
    if n < 10 {
        seq![digit(n)]
    } else {
        decimal(n / 10).push(digit(n % 10))
    }
}

/// The character of a digit.
pub open spec fn digit(d: nat) -> char {
    (48 + d) as char
}

/// The text of a digit.
fn digit_text(d: usize) -> (r: &'static str)
    requires
        d < 10,
    ensures
        r@ == seq![digit(d as nat)],
{
    let digits: &'static str = "0123456789";
    proof {
        reveal_strlit("0123456789");
        assert(digits.is_ascii());
    }
    let r: &'static str = digits.substring_ascii(d, d + 1);
    assert(r@ =~= seq![digit(d as nat)]);
    r
}

/// The text of a number in decimal digits.
pub fn decimal_text(n: u64) -> (r: String)
    ensures
        r@ == decimal(n as nat),
    decreases n,
{
    if n < 10 {
        digit_text(n as usize).to_owned()
    } else {
        let mut text: String = decimal_text(n / 10);
        text.append(digit_text((n % 10) as usize));
        assert(text@ =~= decimal(n as nat));
        text
    }
}

proof fn lemma_decimal_is_a_value(n: nat)
    ensures
        crate::headers::value_ok(decimal(n)),
    decreases n,
{
    if n >= 10 {
        lemma_decimal_is_a_value(n / 10);
    }
}

/// Adds a valid field to a list.
fn push_field(headers: &mut Vec<RawHeader>, name: &str, value: &str)
    requires
        crate::headers::name_ok(name@),
        crate::headers::lower(name@) == name@,
        crate::headers::value_ok(value@),
    ensures
        crate::headers::raw_view(final(headers)@) == crate::headers::raw_view(old(headers)@).push(
            crate::headers::RawView { name: name@, value: vstd::utf8::encode_utf8(value@) },
        ),
{
    let ghost before = headers@;
    if let Some(field) = to_wire(name, value) {
        headers.push(field);
        assert(crate::headers::raw_view(headers@) =~= crate::headers::raw_view(before).push(field@));
    }
}

/// A copy of bytes.
fn copy_bytes(bytes: &[u8]) -> (r: Vec<u8>)
    ensures
        r@ == bytes@,
{
    let mut out: Vec<u8> = Vec::new();
    out.extend_from_slice(bytes);
    assert(out@ =~= bytes@);
    out
}

/// Builds a small response of the proxy's own, marked by the fault that it answers for.
pub fn synth(status: u16, fault: &str, body: &[u8]) -> (r: Reply)
    requires
        status_ok(status),
        crate::headers::value_ok(fault@),
    ensures
        r@ == (ReplyView {
            head: HeadView { status, headers: seq![fault_field(fault@)] },
            body: body@,
        }),
{
    let mut headers: Vec<RawHeader> = Vec::new();
    proof {
        lemma_fault_name();
    }
    push_field(&mut headers, "x-plecto-fault", fault);
    assert(crate::headers::raw_view(headers@) =~= seq![fault_field(fault@)]);
    Reply { head: ResponseHead { status, headers }, body: copy_bytes(body) }
}

/// Builds a response as [`synth`] does, with a hint of the seconds after which to try again.
pub fn synth_retry_after(status: u16, fault: &str, body: &[u8], retry_after_secs: u64) -> (r: Reply)
    requires
        status_ok(status),
        crate::headers::value_ok(fault@),
    ensures
        r@ == (ReplyView {
            head: HeadView {
                status,
                headers: seq![fault_field(fault@), retry_field(retry_after_secs as nat)],
            },
            body: body@,
        }),
{
    let mut headers: Vec<RawHeader> = Vec::new();
    let secs: String = decimal_text(retry_after_secs);
    proof {
        lemma_fault_name();
        lemma_retry_name();
        lemma_decimal_is_a_value(retry_after_secs as nat);
    }
    push_field(&mut headers, "x-plecto-fault", fault);
    push_field(&mut headers, "retry-after", secs.as_str());
    assert(crate::headers::raw_view(headers@) =~= seq![
        fault_field(fault@),
        retry_field(retry_after_secs as nat),
    ]);
    Reply { head: ResponseHead { status, headers }, body: copy_bytes(body) }
}

proof fn lemma_fault_name()
    ensures
        crate::headers::name_ok("x-plecto-fault"@),
        crate::headers::lower("x-plecto-fault"@) == "x-plecto-fault"@,
{
    reveal_strlit("x-plecto-fault");
    assert(crate::headers::lower("x-plecto-fault"@) =~= "x-plecto-fault"@);
}

proof fn lemma_retry_name()
    ensures
        crate::headers::name_ok("retry-after"@),
        crate::headers::lower("retry-after"@) == "retry-after"@,
{
    reveal_strlit("retry-after");
    assert(crate::headers::lower("retry-after"@) =~= "retry-after"@);
}

/// Whatever status and fields a filter sets, the synthesised response can be sent, and its body is
/// the one that was given.
pub proof fn lemma_reply_is_sendable(resp: HttpResponseView)
    ensures
        reply_of(resp).head.sendable(),
        reply_of(resp).body == resp.body,
{
    crate::headers::lemma_copied_headers_are_sendable(resp.headers);
}

/// The responses of the proxy's own can be sent.
pub proof fn lemma_synth_is_sendable(status: u16, fault: Seq<char>, secs: nat)
    requires
        status_ok(status),
        crate::headers::value_ok(fault),
    ensures
        (HeadView { status, headers: seq![fault_field(fault)] }).sendable(),
        (HeadView { status, headers: seq![fault_field(fault), retry_field(secs)] }).sendable(),
{
    lemma_fault_name();
    lemma_retry_name();
    lemma_decimal_is_a_value(secs);
    assert(fault_field(fault).value == vstd::utf8::encode_utf8(fault));
    assert(retry_field(secs).value == vstd::utf8::encode_utf8(decimal(secs)));
    assert(crate::headers::sendable(fault_field(fault)));
    assert(crate::headers::sendable(retry_field(secs)));
}

/// A status of three digits is sent as it was given, in a synthesised reply as in a forwarded head;
/// any other number is sent as 502.
pub proof fn lemma_status_is_kept(status: u16, resp: HttpResponseView)
    ensures
        100 <= status <= 999 ==> clamped(status) == status,
        status < 100 || 999 < status ==> clamped(status) == 502,
        100 <= resp.status <= 999 ==> reply_of(resp).head.status == resp.status,
        resp.status < 100 || 999 < resp.status ==> reply_of(resp).head.status == 502,
{
}

/// A reply carries the body that was given, and all of the given fields where they are valid: in
/// their order, each under its name in lower case with the UTF-8 bytes of its value.
pub proof fn lemma_reply_carries_what_was_given(resp: HttpResponseView)
    requires
        forall|i: int|
            0 <= i < resp.headers.len() ==> crate::headers::name_ok(
                (#[trigger] resp.headers[i]).name,
            ) && crate::headers::value_ok(resp.headers[i].value),
    ensures
        reply_of(resp).body == resp.body,
        reply_of(resp).head.headers.len() == resp.headers.len(),
        forall|i: int|
            0 <= i < resp.headers.len() ==> (#[trigger] reply_of(resp).head.headers[i]).name
                == crate::headers::lower(resp.headers[i].name)
                && reply_of(resp).head.headers[i].value == vstd::utf8::encode_utf8(
                resp.headers[i].value,
            ),
{
    crate::headers::lemma_valid_headers_are_copied(resp.headers);
}

/// The number that a text of decimal digits stands for.
pub open spec fn number_of(text: Seq<char>) -> int
    decreases text.len(),
{
    if text.len() == 0 {
        0
    } else {
        10 * number_of(text.drop_last()) + (text.last() as int - '0' as int)
    }
}

/// The decimal text of a number reads back as that number. It holds digits only, and no zero stands
/// in front of another digit.
pub proof fn lemma_decimal_reads_back(n: nat)
    ensures
        number_of(decimal(n)) == n,
        decimal(n).len() > 0,
        forall|i: int| 0 <= i < decimal(n).len() ==> '0' <= (#[trigger] decimal(n)[i]) <= '9',
        decimal(n).len() > 1 ==> decimal(n)[0] != '0',
    decreases n,
{
    if n < 10 {
        assert(decimal(n).drop_last() =~= Seq::<char>::empty());
        assert(number_of(decimal(n).drop_last()) == 0);
    } else {
        lemma_decimal_reads_back(n / 10);
        let front = decimal(n / 10);
        assert(decimal(n).drop_last() =~= front);
        assert(decimal(n)[0] == front[0]);
        if front.len() == 1 {
            assert(front.drop_last() =~= Seq::<char>::empty());
            assert(number_of(front.drop_last()) == 0);
            assert(number_of(front) == front[0] as int - '0' as int);
        }
        assert forall|i: int| 0 <= i < decimal(n).len() implies '0' <= (#[trigger] decimal(n)[i])
            <= '9' by {
            if i < front.len() {
                assert(decimal(n)[i] == front[i]);
            }
        }
    }
}

/// The hint of when to try again is a decimal text that reads back as the seconds that were given,
/// under the name that clients look for; the fault stands under the name of the proxy's marker.
pub proof fn lemma_hint_reads_back(fault: Seq<char>, secs: nat) -> (text: Seq<char>)
    ensures
        retry_field(secs).name == "retry-after"@,
        retry_field(secs).value == vstd::utf8::encode_utf8(text),
        number_of(text) == secs,
        fault_field(fault).name == "x-plecto-fault"@,
        fault_field(fault).value == vstd::utf8::encode_utf8(fault),
{
    lemma_decimal_reads_back(secs);
    decimal(secs)
}

/// The values of a response, given or built, are those that it holds.
pub proof fn lemma_response_is_as_held(given: HttpResponse, head: ResponseHead, reply: Reply)
    ensures
        given@.status == given.status,
        given@.headers == crate::headers::headers_view(given.headers@),
        given@.body == given.body@,
        head@.status == head.status,
        head@.headers == crate::headers::raw_view(head.headers@),
        reply@.head == reply.head@,
        reply@.body == reply.body@,
{
}

/// A head has a field of a name exactly if one of its fields has that name in lower case, whatever
/// the case of the name that is asked for.
pub proof fn lemma_fields_are_found_by_name(head: HeadView, name: Seq<char>, other: Seq<char>, i: int)
    ensures
        0 <= i < head.headers.len() && head.headers[i].name == crate::headers::lower(name)
            ==> head.has(name),
        (forall|k: int|
            0 <= k < head.headers.len() ==> (#[trigger] head.headers[k]).name
                != crate::headers::lower(name)) ==> !head.has(name),
        crate::headers::lower(name) == crate::headers::lower(other) ==> (head.has(name)
            <==> head.has(other)),
{
}

/// The proxy's own responses say what is wrong under one name, and when to try again under another.
pub proof fn lemma_faults_are_named(fault: Seq<char>, secs: nat)
    ensures
        fault_field(fault).name == "x-plecto-fault"@,
        fault_field(fault).value == vstd::utf8::encode_utf8(fault),
        retry_field(secs).name == "retry-after"@,
{
}

/// A reply goes with the fields that can be sent, whatever the others are, and with its whole body.
pub proof fn lemma_reply_drops_only_what_is_invalid(resp: HttpResponseView)
    ensures
        reply_of(resp).head.headers == crate::headers::copied(resp.headers),
        reply_of(resp).body == resp.body,
{
}

} // verus!
