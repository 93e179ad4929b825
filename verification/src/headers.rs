//! Header fields: as filters see and edit them (text), and as they go over the wire (bytes).
use hyper::header::{HeaderName, HeaderValue};
use vstd::prelude::*;

verus! {

/// A header field as a filter sees it.
#[derive(Debug)]
pub struct Header {
    pub name: String,
    pub value: String,
}

/// [`Header`] as plain values.
#[verifier::ext_equal]
pub struct HeaderView {
    pub name: Seq<char>,
    pub value: Seq<char>,
}

impl View for Header {
    type V = HeaderView;

    open spec fn view(&self) -> HeaderView {
        HeaderView { name: self.name@, value: self.value@ }
    }
}

/// A header field as it goes over the wire: the name in lower case, the value as bytes.
#[derive(Debug)]
pub struct RawHeader {
    pub name: String,
    pub value: Vec<u8>,
}

/// [`RawHeader`] as plain values.
#[verifier::ext_equal]
pub struct RawView {
    pub name: Seq<char>,
    pub value: Seq<u8>,
}

impl View for RawHeader {
    type V = RawView;

    open spec fn view(&self) -> RawView {
        RawView { name: self.name@, value: self.value@ }
    }
}

/// The header fields of a list, as plain values.
pub open spec fn headers_view(headers: Seq<Header>) -> Seq<HeaderView> {
    headers.map_values(|h: Header| h@)
}

/// The wire fields of a list, as plain values.
pub open spec fn raw_view(headers: Seq<RawHeader>) -> Seq<RawView> {
    headers.map_values(|h: RawHeader| h@)
}

/// The texts of a list, as plain values.
pub open spec fn texts_view(texts: Seq<String>) -> Seq<Seq<char>> {
    texts.map_values(|t: String| t@)
}

/// A text with its ASCII capital letters in lower case.
pub open spec fn lower(text: Seq<char>) -> Seq<char> {
    text.map_values(|c: char| crate::upstream::group::ascii_lower(c))
}

/// The longest name that a header field may have.
pub const MAX_NAME_LEN: usize = 65535;

/// Whether a character may stand in a header name: letters, digits and the marks of a token.
pub open spec fn is_token_char(c: char) -> bool {
    ||| 'a' <= c <= 'z'
    ||| 'A' <= c <= 'Z'
    ||| '0' <= c <= '9'
    ||| c == '!' || c == '#' || c == '$' || c == '%' || c == '&' || c == '\'' || c == '*'
    ||| c == '+' || c == '-' || c == '.' || c == '^' || c == '_' || c == '`' || c == '|'
    ||| c == '~'
}

/// Whether a text is a header name.
pub open spec fn name_ok(name: Seq<char>) -> bool {
    &&& 0 < name.len() <= MAX_NAME_LEN
    &&& forall|i: int| 0 <= i < name.len() ==> is_token_char(#[trigger] name[i])
}

/// Whether a character may stand in a header value: no control character but the tab.
pub open spec fn is_value_char(c: char) -> bool {
    c == '\t' || (c as u32 >= 32 && c as u32 != 127)
}

/// Whether a text is a header value.
pub open spec fn value_ok(value: Seq<char>) -> bool {
    forall|i: int| 0 <= i < value.len() ==> is_value_char(#[trigger] value[i])
}

/// `HeaderName::from_bytes` with the name read back by `HeaderName::as_str`: a text of token
/// characters, neither empty nor longer than the longest name, becomes a name in lower case, and
/// every other text is refused.
#[verifier::external_body]
fn header_name(name: &str) -> (r: Option<String>)
    ensures
        match r {
            Some(parsed) => name_ok(name@) && parsed@ == lower(name@),
            None => !name_ok(name@),
        },
{
    match HeaderName::from_bytes(name.as_bytes()) {
        Ok(parsed) => Some(parsed.as_str().to_owned()),
        Err(_) => None,
    }
}

/// `HeaderValue::from_str` with the value read back by `HeaderValue::as_bytes`: a text without
/// control characters, but for the tab, becomes its UTF-8 bytes, and every other text is refused.
#[verifier::external_body]
fn header_value(value: &str) -> (r: Option<Vec<u8>>)
    ensures
        match r {
            Some(bytes) => value_ok(value@) && bytes@ == vstd::utf8::encode_utf8(value@),
            None => !value_ok(value@),
        },
{
    match HeaderValue::from_str(value) {
        Ok(parsed) => Some(parsed.as_bytes().to_vec()),
        Err(_) => None,
    }
}

/// The text that bytes show as, with what is no UTF-8 replaced.
pub uninterp spec fn lossy_text(bytes: Seq<u8>) -> Seq<char>;

/// `String::from_utf8_lossy`: the text that bytes show as. Bytes that are UTF-8 show as the text that
/// they encode; how other bytes are replaced is only named here.
#[verifier::external_body]
fn shown_text(bytes: &[u8]) -> (r: String)
    ensures
        r@ == lossy_text(bytes@),
        vstd::utf8::valid_utf8(bytes@) ==> r@ == vstd::utf8::decode_utf8(bytes@),
{
    String::from_utf8_lossy(bytes).into_owned()
}

/// What a header field is on the wire, if it is valid.
pub open spec fn wire_field(header: HeaderView) -> Option<RawView> {
    if name_ok(header.name) && value_ok(header.value) {
        Some(
            RawView {
                name: lower(header.name),
                value: vstd::utf8::encode_utf8(header.value),
            },
        )
    } else {
        None
    }
}

/// The valid fields of a list on the wire, in their order.
pub open spec fn copied(headers: Seq<HeaderView>) -> Seq<RawView>
    decreases headers.len(),
{
    if headers.len() == 0 {
        Seq::empty()
    } else {
        let before = copied(headers.drop_last());
        match wire_field(headers.last()) {
            Some(field) => before.push(field),
            None => before,
        }
    }
}

/// Takes a field to the wire, if it is valid.
pub fn to_wire(name: &str, value: &str) -> (r: Option<RawHeader>)
    ensures
        match r {
            Some(field) => wire_field(HeaderView { name: name@, value: value@ }) == Some(field@),
            None => wire_field(HeaderView { name: name@, value: value@ }) is None,
        },
{
    match header_name(name) {
        Some(name) => match header_value(value) {
            Some(value) => Some(RawHeader { name, value }),
            None => None,
        },
        None => None,
    }
}

/// Takes the fields of a list to the wire, in their order. Fields with an invalid name or value are
/// dropped.
pub fn copy_headers(headers: &[Header]) -> (r: Vec<RawHeader>)
    ensures
        raw_view(r@) == copied(headers_view(headers@)),
{
    let ghost all = headers_view(headers@);
    let mut out: Vec<RawHeader> = Vec::new();
    let mut i: usize = 0;
    while i < headers.len()
        invariant
            all == headers_view(headers@),
            i <= headers@.len(),
            raw_view(out@) == copied(all.take(i as int)),
        decreases headers@.len() - i,
    {
        let ghost before = out@;
        proof {
            assert(all.take(i as int + 1).drop_last() =~= all.take(i as int));
            assert(all.take(i as int + 1).last() == headers@[i as int]@);
        }
        if let Some(field) = to_wire(headers[i].name.as_str(), headers[i].value.as_str()) {
            out.push(field);
            assert(raw_view(out@) =~= raw_view(before).push(field@));
        }
        i += 1;
    }
    assert(all.take(i as int) =~= all);
    out
}

/// Whether a field is what a filter saw of the received field at a place that is still free.
pub open spec fn is_source(
    header: HeaderView,
    original: Seq<RawView>,
    shown: Seq<Seq<char>>,
    taken: Seq<bool>,
    i: int,
) -> bool {
    !taken[i] && original[i].name == lower(header.name) && shown[i] == header.value
}

/// The first place, from a place on, that a field may come from.
pub open spec fn source_from(
    header: HeaderView,
    original: Seq<RawView>,
    shown: Seq<Seq<char>>,
    taken: Seq<bool>,
    from: nat,
) -> Option<nat>
    decreases original.len() - from,
{
    if from >= original.len() {
        None
    } else if is_source(header, original, shown, taken, from as int) {
        Some(from)
    } else {
        source_from(header, original, shown, taken, from + 1)
    }
}

/// A list of fields taken to the wire beside the received fields, and which of these were used: a
/// field that a filter left untouched keeps the received bytes, each received field serving one
/// field at most; any other is encoded anew, and dropped where it is invalid.
pub open spec fn preserved(
    headers: Seq<HeaderView>,
    original: Seq<RawView>,
    shown: Seq<Seq<char>>,
) -> (Seq<RawView>, Seq<bool>)
    decreases headers.len(),
{
    if headers.len() == 0 {
        (Seq::empty(), Seq::new(original.len(), |i: int| false))
    } else {
        let (before, taken) = preserved(headers.drop_last(), original, shown);
        let header = headers.last();
        if !name_ok(header.name) {
            (before, taken)
        } else {
            match source_from(header, original, shown, taken, 0) {
                Some(i) => (
                    before.push(
                        RawView { name: lower(header.name), value: original[i as int].value },
                    ),
                    taken.update(i as int, true),
                ),
                None => match wire_field(header) {
                    Some(field) => (before.push(field), taken),
                    None => (before, taken),
                },
            }
        }
    }
}

/// The texts that the received fields show as.
pub open spec fn shown_of(original: Seq<RawView>) -> Seq<Seq<char>> {
    original.map_values(|h: RawView| lossy_text(h.value))
}

/// The texts that the received fields show as.
pub fn show_headers(original: &[RawHeader]) -> (r: Vec<String>)
    ensures
        texts_view(r@) == shown_of(raw_view(original@)),
        forall|i: int|
            0 <= i < original@.len() && vstd::utf8::valid_utf8(original@[i].value@)
                ==> (#[trigger] texts_view(r@)[i]) == vstd::utf8::decode_utf8(original@[i].value@),
{
    let mut shown: Vec<String> = Vec::new();
    let mut i: usize = 0;
    while i < original.len()
        invariant
            i <= original@.len(),
            shown@.len() == i,
            texts_view(shown@) == shown_of(raw_view(original@)).take(i as int),
            forall|j: int|
                0 <= j < i && vstd::utf8::valid_utf8(original@[j].value@) ==> (
                #[trigger] shown@[j])@ == vstd::utf8::decode_utf8(original@[j].value@),
        decreases original@.len() - i,
    {
        let ghost before = shown@;
        let text: String = shown_text(original[i].value.as_slice());
        shown.push(text);
        proof {
            assert(texts_view(shown@) =~= texts_view(before).push(text@));
            assert(texts_view(shown@) =~= shown_of(raw_view(original@)).take(i as int + 1));
        }
        i += 1;
    }
    assert(texts_view(shown@) =~= shown_of(raw_view(original@)));
    shown
}

/// The place that a field comes from.
fn find_source(
    name: &String,
    header: &Header,
    original: &[RawHeader],
    shown: &Vec<String>,
    taken: &Vec<bool>,
) -> (r: Option<usize>)
    requires
        name@ == lower(header@.name),
        original@.len() == shown@.len() == taken@.len(),
    ensures
        source_from(header@, raw_view(original@), texts_view(shown@), taken@, 0) == match r {
            Some(i) => Some(i as nat),
            None => None,
        },
        r matches Some(i) ==> i < original@.len(),
{
    let ghost raw = raw_view(original@);
    let ghost texts = texts_view(shown@);
    let mut i: usize = 0;
    while i < original.len()
        invariant
            i <= original@.len(),
            name@ == lower(header@.name),
            original@.len() == shown@.len() == taken@.len(),
            raw == raw_view(original@),
            texts == texts_view(shown@),
            source_from(header@, raw, texts, taken@, 0) == source_from(
                header@,
                raw,
                texts,
                taken@,
                i as nat,
            ),
        decreases original@.len() - i,
    {
        assert(raw[i as int] == original@[i as int]@ && texts[i as int] == shown@[i as int]@);
        if !taken[i] && original[i].name == *name && shown[i] == header.value {
            return Some(i);
        }
        i += 1;
    }
    None
}

/// Takes the fields of a list to the wire, beside the received fields and the texts that these show
/// as. Fields that are still what was received keep the received bytes.
pub fn copy_headers_preserving(
    headers: &[Header],
    original: &[RawHeader],
    shown: &Vec<String>,
) -> (r: Vec<RawHeader>)
    requires
        original@.len() == shown@.len(),
    ensures
        raw_view(r@) == preserved(
            headers_view(headers@),
            raw_view(original@),
            texts_view(shown@),
        ).0,
{
    let ghost all = headers_view(headers@);
    let ghost raw = raw_view(original@);
    let ghost texts = texts_view(shown@);
    let mut out: Vec<RawHeader> = Vec::new();
    let mut taken: Vec<bool> = Vec::new();
    let mut k: usize = 0;
    while k < original.len()
        invariant
            k <= original@.len(),
            taken@ == Seq::new(k as nat, |i: int| false),
        decreases original@.len() - k,
    {
        taken.push(false);
        k += 1;
        assert(taken@ =~= Seq::new(k as nat, |i: int| false));
    }
    let mut i: usize = 0;
    assert(all.take(0) =~= Seq::empty());
    assert(raw_view(out@) =~= Seq::empty());
    while i < headers.len()
        invariant
            all == headers_view(headers@),
            raw == raw_view(original@),
            texts == texts_view(shown@),
            original@.len() == shown@.len() == taken@.len(),
            i <= headers@.len(),
            preserved(all.take(i as int), raw, texts) == (raw_view(out@), taken@),
        decreases headers@.len() - i,
    {
        let ghost before = out@;
        let header = &headers[i];
        proof {
            assert(all.take(i as int + 1).drop_last() =~= all.take(i as int));
            assert(all.take(i as int + 1).last() == header@);
        }
        if let Some(name) = header_name(header.name.as_str()) {
            match find_source(&name, header, original, shown, &taken) {
                Some(j) => {
                    assert(raw[j as int] == original@[j as int]@);
                    let value: Vec<u8> = original[j].value.clone();
                    let field = RawHeader { name, value };
                    taken.set(j, true);
                    out.push(field);
                    assert(raw_view(out@) =~= raw_view(before).push(field@));
                },
                None => {
                    if let Some(value) = header_value(header.value.as_str()) {
                        let field = RawHeader { name, value };
                        out.push(field);
                        assert(raw_view(out@) =~= raw_view(before).push(field@));
                    }
                },
            }
        }
        i += 1;
    }
    assert(all.take(i as int) =~= all);
    out
}

/// Whether a wire field can be sent: a valid name in lower case with the bytes of a valid value.
pub open spec fn sendable(field: RawView) -> bool {
    &&& name_ok(field.name)
    &&& lower(field.name) == field.name
    &&& exists|value: Seq<char>|
        value_ok(value) && field.value == #[trigger] vstd::utf8::encode_utf8(value)
}

proof fn lemma_lower_name(name: Seq<char>)
    requires
        name_ok(name),
    ensures
        name_ok(lower(name)),
        lower(lower(name)) == lower(name),
{
    assert forall|i: int| 0 <= i < name.len() implies is_token_char(#[trigger] lower(name)[i])
        && crate::upstream::group::ascii_lower(lower(name)[i]) == lower(name)[i] by {
        assert(is_token_char(name[i]));
    }
    assert(lower(lower(name)) =~= lower(name));
}

/// Whatever fields a filter sets, those that reach the wire can be sent.
pub proof fn lemma_copied_headers_are_sendable(headers: Seq<HeaderView>)
    ensures
        forall|i: int| 0 <= i < copied(headers).len() ==> sendable(#[trigger] copied(headers)[i]),
    decreases headers.len(),
{
    if headers.len() > 0 {
        lemma_copied_headers_are_sendable(headers.drop_last());
        let header = headers.last();
        if name_ok(header.name) && value_ok(header.value) {
            lemma_lower_name(header.name);
        }
        let before = copied(headers.drop_last());
        assert forall|i: int| 0 <= i < copied(headers).len() implies sendable(
            #[trigger] copied(headers)[i],
        ) by {
            if i < before.len() {
                assert(copied(headers)[i] == before[i]);
            } else {
                assert(copied(headers)[i].value == vstd::utf8::encode_utf8(header.value));
            }
        }
    }
}

/// A list of valid fields reaches the wire whole, field by field.
pub proof fn lemma_valid_headers_are_copied(headers: Seq<HeaderView>)
    requires
        forall|i: int|
            0 <= i < headers.len() ==> name_ok((#[trigger] headers[i]).name) && value_ok(
                headers[i].value,
            ),
    ensures
        copied(headers) == headers.map_values(
            |h: HeaderView|
                RawView { name: lower(h.name), value: vstd::utf8::encode_utf8(h.value) },
        ),
    decreases headers.len(),
{
    let whole = headers.map_values(
        |h: HeaderView| RawView { name: lower(h.name), value: vstd::utf8::encode_utf8(h.value) },
    );
    if headers.len() > 0 {
        assert(headers.last() == headers[headers.len() - 1]);
        lemma_valid_headers_are_copied(headers.drop_last());
    }
    assert(copied(headers) =~= whole);
}

proof fn lemma_source_from(
    header: HeaderView,
    original: Seq<RawView>,
    shown: Seq<Seq<char>>,
    taken: Seq<bool>,
    from: nat,
    i: nat,
)
    requires
        from <= i < original.len(),
        is_source(header, original, shown, taken, i as int),
        forall|j: int| from <= j < i ==> !is_source(header, original, shown, taken, j),
    ensures
        source_from(header, original, shown, taken, from) == Some(i),
    decreases i - from,
{
    if from < i {
        lemma_source_from(header, original, shown, taken, from + 1, i);
    }
}

proof fn lemma_source_is_one(
    header: HeaderView,
    original: Seq<RawView>,
    shown: Seq<Seq<char>>,
    taken: Seq<bool>,
    from: nat,
)
    ensures
        source_from(header, original, shown, taken, from) matches Some(i) ==> i < original.len()
            && is_source(header, original, shown, taken, i as int),
    decreases original.len() - from,
{
    if from < original.len() && !is_source(header, original, shown, taken, from as int) {
        lemma_source_is_one(header, original, shown, taken, from + 1);
    }
}

/// A response whose fields no filter edits goes back byte for byte, in the received order.
pub proof fn lemma_unedited_headers_are_kept(headers: Seq<HeaderView>, original: Seq<RawView>)
    requires
        headers.len() == original.len(),
        forall|i: int|
            0 <= i < original.len() ==> name_ok((#[trigger] original[i]).name) && lower(
                original[i].name,
            ) == original[i].name,
        forall|i: int|
            0 <= i < headers.len() ==> (#[trigger] headers[i]).name == original[i].name
                && headers[i].value == lossy_text(original[i].value),
    ensures
        preserved(headers, original, shown_of(original)).0 == original,
{
    lemma_unedited_prefix(headers, original, headers.len());
    assert(headers.take(headers.len() as int) =~= headers);
    assert(original.take(headers.len() as int) =~= original);
}

proof fn lemma_unedited_prefix(headers: Seq<HeaderView>, original: Seq<RawView>, n: nat)
    requires
        n <= headers.len() == original.len(),
        forall|i: int|
            0 <= i < original.len() ==> name_ok((#[trigger] original[i]).name) && lower(
                original[i].name,
            ) == original[i].name,
        forall|i: int|
            0 <= i < headers.len() ==> (#[trigger] headers[i]).name == original[i].name
                && headers[i].value == lossy_text(original[i].value),
    ensures
        preserved(headers.take(n as int), original, shown_of(original)) == (
            original.take(n as int),
            Seq::new(original.len(), |i: int| i < n),
        ),
    decreases n,
{
    let shown = shown_of(original);
    if n == 0 {
        assert(original.take(0) =~= Seq::empty());
        assert(Seq::new(original.len(), |i: int| i < 0) =~= Seq::new(
            original.len(),
            |i: int| false,
        ));
    } else {
        let m = (n - 1) as nat;
        lemma_unedited_prefix(headers, original, m);
        assert(headers.take(n as int).drop_last() =~= headers.take(m as int));
        let header = headers.take(n as int).last();
        assert(header == headers[m as int]);
        let taken = Seq::new(original.len(), |i: int| i < m);
        lemma_source_from(header, original, shown, taken, 0, m);
        assert(taken.update(m as int, true) =~= Seq::new(original.len(), |i: int| i < n));
        assert(original.take(n as int) =~= original.take(m as int).push(original[m as int]));
    }
}

/// The received fields, among the first `n`, that have a name and show as a text.
pub open spec fn received(
    original: Seq<RawView>,
    name: Seq<char>,
    text: Seq<char>,
    n: nat,
) -> nat
    decreases n,
{
    if n == 0 {
        0
    } else {
        received(original, name, text, (n - 1) as nat) + if original[n - 1].name == name
            && lossy_text(original[n - 1].value) == text {
            1nat
        } else {
            0nat
        }
    }
}

/// Whether a field is one that shows as a text under a name, given in lower case.
pub open spec fn stands_for(header: HeaderView, name: Seq<char>, text: Seq<char>) -> bool {
    name_ok(header.name) && lower(header.name) == name && header.value == text
}

/// The fields of a list that show as a text under a name.
pub open spec fn left(headers: Seq<HeaderView>, name: Seq<char>, text: Seq<char>) -> nat
    decreases headers.len(),
{
    if headers.len() == 0 {
        0
    } else {
        left(headers.drop_last(), name, text) + if stands_for(headers.last(), name, text) {
            1nat
        } else {
            0nat
        }
    }
}

/// However the other fields are edited, a received field that the filters leave untouched goes back
/// with its bytes: every one for which as many fields of its name and text are left as were
/// received up to it. Received fields that show alike are told apart by their order.
pub proof fn lemma_untouched_header_keeps_its_bytes(
    headers: Seq<HeaderView>,
    original: Seq<RawView>,
    i: int,
)
    requires
        0 <= i < original.len(),
        left(headers, original[i].name, lossy_text(original[i].value)) >= received(
            original,
            original[i].name,
            lossy_text(original[i].value),
            (i + 1) as nat,
        ),
    ensures
        preserved(headers, original, shown_of(original)).0.contains(original[i]),
{
    lemma_taken_in_order(headers, original, i);
    lemma_taken_is_sent(headers, original, i);
}

/// Received fields that show alike are used in their order: one is used exactly if more fields of
/// its name and text are left than were received before it.
proof fn lemma_taken_in_order(headers: Seq<HeaderView>, original: Seq<RawView>, i: int)
    requires
        0 <= i < original.len(),
    ensures
        preserved(headers, original, shown_of(original)).1.len() == original.len(),
        preserved(headers, original, shown_of(original)).1[i] <==> received(
            original,
            original[i].name,
            lossy_text(original[i].value),
            i as nat,
        ) < left(headers, original[i].name, lossy_text(original[i].value)),
    decreases headers.len(),
{
    let shown = shown_of(original);
    let name = original[i].name;
    let text = lossy_text(original[i].value);
    if headers.len() > 0 {
        let rest = headers.drop_last();
        let (before, taken) = preserved(rest, original, shown);
        let header = headers.last();
        lemma_taken_in_order(rest, original, i);
        lemma_source_is_one(header, original, shown, taken, 0);
        lemma_source_is_first(header, original, shown, taken, 0);
        if stands_for(header, name, text) {
            let rank = received(original, name, text, i as nat);
            match source_from(header, original, shown, taken, 0) {
                Some(at) => {
                    lemma_taken_in_order(rest, original, at as int);
                    let first = received(original, name, text, at);
                    if i < at {
                        // a field before the source is used already
                        assert(!is_source(header, original, shown, taken, i));
                    } else if at < i {
                        lemma_received_grows(original, name, text, at + 1, i as nat);
                    }
                    // no field between those that are used and the source is skipped
                    if first > left(rest, name, text) {
                        let k = lemma_received_reaches(
                            original,
                            name,
                            text,
                            at,
                            left(rest, name, text),
                        );
                        lemma_taken_in_order(rest, original, k);
                        assert(!is_source(header, original, shown, taken, k));
                    }
                },
                None => {
                    assert(!is_source(header, original, shown, taken, i));
                },
            }
        }
    }
}

/// Nothing before the source of a field could have been it.
proof fn lemma_source_is_first(
    header: HeaderView,
    original: Seq<RawView>,
    shown: Seq<Seq<char>>,
    taken: Seq<bool>,
    from: nat,
)
    ensures
        forall|j: int|
            from <= j < match source_from(header, original, shown, taken, from) {
                Some(i) => i as int,
                None => original.len() as int,
            } ==> !#[trigger] is_source(header, original, shown, taken, j),
    decreases original.len() - from,
{
    if from < original.len() && !is_source(header, original, shown, taken, from as int) {
        lemma_source_is_first(header, original, shown, taken, from + 1);
    }
}

proof fn lemma_received_grows(
    original: Seq<RawView>,
    name: Seq<char>,
    text: Seq<char>,
    a: nat,
    b: nat,
)
    requires
        a <= b,
    ensures
        received(original, name, text, a) <= received(original, name, text, b),
    decreases b,
{
    if a < b {
        lemma_received_grows(original, name, text, a, (b - 1) as nat);
    }
}

/// A field with a given number of its like before it, where more than that number were received.
proof fn lemma_received_reaches(
    original: Seq<RawView>,
    name: Seq<char>,
    text: Seq<char>,
    n: nat,
    count: nat,
) -> (k: int)
    requires
        n <= original.len(),
        received(original, name, text, n) > count,
    ensures
        0 <= k < n,
        original[k].name == name,
        lossy_text(original[k].value) == text,
        received(original, name, text, k as nat) == count,
    decreases n,
{
    if received(original, name, text, (n - 1) as nat) > count {
        lemma_received_reaches(original, name, text, (n - 1) as nat, count)
    } else {
        n - 1
    }
}

/// Every received field that was used is sent.
proof fn lemma_taken_is_sent(headers: Seq<HeaderView>, original: Seq<RawView>, i: int)
    requires
        0 <= i < original.len(),
    ensures
        preserved(headers, original, shown_of(original)).1.len() == original.len(),
        preserved(headers, original, shown_of(original)).1[i] ==> preserved(
            headers,
            original,
            shown_of(original),
        ).0.contains(original[i]),
    decreases headers.len(),
{
    let shown = shown_of(original);
    if headers.len() > 0 {
        let (before, taken) = preserved(headers.drop_last(), original, shown);
        let header = headers.last();
        let (after, taken_after) = preserved(headers, original, shown);
        lemma_taken_is_sent(headers.drop_last(), original, i);
        lemma_source_is_one(header, original, shown, taken, 0);
        if taken[i] {
            let k = before.index_of(original[i]);
            assert(after[k] == original[i]);
        } else if taken_after[i] {
            assert(after[before.len() as int] =~= original[i]);
        }
    }
}

/// Lists of fields are taken to the wire one after the other, so no field depends on another. A
/// valid field goes alone as its name in lower case with the UTF-8 bytes of its value, and an
/// invalid one as nothing.
pub proof fn lemma_fields_are_copied_each(a: Seq<HeaderView>, b: Seq<HeaderView>, h: HeaderView)
    ensures
        copied(a + b) == copied(a) + copied(b),
        copied(Seq::empty()) == Seq::<RawView>::empty(),
        name_ok(h.name) && value_ok(h.value) ==> copied(seq![h]) == seq![
            RawView { name: lower(h.name), value: vstd::utf8::encode_utf8(h.value) },
        ],
        !name_ok(h.name) || !value_ok(h.value) ==> copied(seq![h]) == Seq::<RawView>::empty(),
        name_ok(h.name) && value_ok(h.value) ==> wire_field(h) == Some(
            RawView { name: lower(h.name), value: vstd::utf8::encode_utf8(h.value) },
        ),
        !name_ok(h.name) || !value_ok(h.value) ==> wire_field(h) is None,
    decreases b.len(),
{
    if b.len() == 0 {
        assert(a + b =~= a);
    } else {
        lemma_fields_are_copied_each(a, b.drop_last(), h);
        assert((a + b).drop_last() =~= a + b.drop_last());
    }
    assert(copied(a + b) =~= copied(a) + copied(b));
    let alone = seq![h];
    assert(alone.drop_last() =~= Seq::empty());
    assert(copied(alone.drop_last()) =~= Seq::empty());
    assert(alone.last() == h);
}

/// The lower case of a text changes the capital letters of ASCII and nothing else.
pub proof fn lemma_lower_changes_capitals(text: Seq<char>, i: int)
    requires
        0 <= i < text.len(),
    ensures
        lower(text).len() == text.len(),
        'A' <= text[i] <= 'Z' ==> lower(text)[i] as int == text[i] as int + 32,
        text[i] < 'A' || 'Z' < text[i] ==> lower(text)[i] == text[i],
{
}

/// A field whose name is invalid is dropped, whatever was received.
pub proof fn lemma_invalid_name_is_dropped(
    headers: Seq<HeaderView>,
    h: HeaderView,
    original: Seq<RawView>,
    shown: Seq<Seq<char>>,
)
    requires
        !name_ok(h.name),
    ensures
        preserved(headers.push(h), original, shown).0 == preserved(headers, original, shown).0,
        preserved(Seq::empty(), original, shown).0 == Seq::<RawView>::empty(),
{
    assert(headers.push(h).drop_last() =~= headers);
}

/// The fields that the filters leave are served with received bytes in order: the next field of a
/// name and text goes with the bytes of the received field of that name and text that has as many of
/// its like before it as were left before the field.
pub proof fn lemma_fields_are_served_in_order(
    headers: Seq<HeaderView>,
    h: HeaderView,
    original: Seq<RawView>,
    i: int,
)
    requires
        name_ok(h.name),
        0 <= i < original.len(),
        original[i].name == lower(h.name),
        lossy_text(original[i].value) == h.value,
        received(original, lower(h.name), h.value, i as nat) == left(
            headers,
            lower(h.name),
            h.value,
        ),
    ensures
        preserved(headers.push(h), original, shown_of(original)).0 == preserved(
            headers,
            original,
            shown_of(original),
        ).0.push(original[i]),
{
    let shown = shown_of(original);
    let (before, taken) = preserved(headers, original, shown);
    assert(headers.push(h).drop_last() =~= headers);
    assert(headers.push(h).last() == h);
    lemma_taken_in_order(headers, original, i);
    assert(is_source(h, original, shown, taken, i));
    assert forall|j: int| 0 <= j < i implies !is_source(h, original, shown, taken, j) by {
        if is_source(h, original, shown, taken, j) {
            lemma_taken_in_order(headers, original, j);
            lemma_received_grows(original, lower(h.name), h.value, (j + 1) as nat, i as nat);
        }
    }
    lemma_source_from(h, original, shown, taken, 0, i as nat);
    assert(original[i] == (RawView { name: lower(h.name), value: original[i].value }));
}

/// A field that the received ones do not serve any more goes as if nothing had been received: all of
/// those that show as it are used, or there never was one.
pub proof fn lemma_other_fields_are_encoded_anew(
    headers: Seq<HeaderView>,
    h: HeaderView,
    original: Seq<RawView>,
)
    requires
        name_ok(h.name),
        received(original, lower(h.name), h.value, original.len()) <= left(
            headers,
            lower(h.name),
            h.value,
        ),
    ensures
        preserved(headers.push(h), original, shown_of(original)).0 == preserved(
            headers,
            original,
            shown_of(original),
        ).0 + copied(seq![h]),
{
    let shown = shown_of(original);
    let (before, taken) = preserved(headers, original, shown);
    assert(headers.push(h).drop_last() =~= headers);
    assert(headers.push(h).last() == h);
    lemma_source_is_one(h, original, shown, taken, 0);
    match source_from(h, original, shown, taken, 0) {
        Some(i) => {
            lemma_taken_in_order(headers, original, i as int);
            lemma_received_grows(original, lower(h.name), h.value, i + 1, original.len());
        },
        None => {},
    }
    lemma_fields_are_copied_each(Seq::empty(), Seq::empty(), h);
    assert(preserved(headers.push(h), original, shown).0 =~= before + copied(seq![h]));
}

/// What a received field shows as is what its bytes show as, and there is one text for each.
pub proof fn lemma_each_field_is_shown(original: Seq<RawView>, i: int)
    requires
        0 <= i < original.len(),
    ensures
        shown_of(original).len() == original.len(),
        shown_of(original)[i] == lossy_text(original[i].value),
{
}

/// The values of header fields are those that they hold, in the order of the list.
pub proof fn lemma_fields_are_as_held(
    headers: Seq<Header>,
    raw: Seq<RawHeader>,
    texts: Seq<String>,
    i: int,
)
    ensures
        headers_view(headers).len() == headers.len(),
        raw_view(raw).len() == raw.len(),
        texts_view(texts).len() == texts.len(),
        0 <= i < headers.len() ==> headers_view(headers)[i].name == headers[i].name@
            && headers_view(headers)[i].value == headers[i].value@,
        0 <= i < raw.len() ==> raw_view(raw)[i].name == raw[i].name@ && raw_view(raw)[i].value
            == raw[i].value@,
        0 <= i < texts.len() ==> texts_view(texts)[i] == texts[i]@,
{
}

} // verus!
