//! Headers of an HTTP response.
use http::header::MaxSizeReached;
use http::{HeaderMap, HeaderValue};
use vstd::prelude::*;
use vstd::utf8::encode_utf8;

verus! {

/// `http::HeaderMap`, a map from header names to one or more values.
#[verifier::external_type_specification]
#[verifier::external_body]
#[verifier::reject_recursive_types(T)]
pub struct ExHeaderMap<T>(http::HeaderMap<T>);

/// `http::HeaderValue`, the value of a header.
#[verifier::external_type_specification]
#[verifier::external_body]
pub struct ExHeaderValue(http::HeaderValue);

/// `http::header::MaxSizeReached`, the refusal of a full header map.
#[verifier::external_type_specification]
#[verifier::external_body]
pub struct ExMaxSizeReached(http::header::MaxSizeReached);

/// What a header map holds: by the bytes of each name, its values in order, each as its bytes and
/// whether it is sensitive.
pub uninterp spec fn header_contents(headers: HeaderMap) -> Map<Seq<u8>, Seq<(Seq<u8>, bool)>>;

/// The value of a header.
#[derive(Debug, PartialEq, Eq)]
pub struct HeaderBytes {
    /// The bytes of the value.
    pub bytes: Vec<u8>,
    /// Whether the value is to be kept out of logs and compression tables.
    pub sensitive: bool,
}

impl HeaderBytes {
    /// The bytes, and whether they are sensitive.
    pub open spec fn view(&self) -> (Seq<u8>, bool) {
        (self.bytes@, self.sensitive)
    }
}

/// Whether a byte may stand in the name of a header: a letter, a digit or one of
/// ``!#$%&'*+-.^_`|~``.
pub open spec fn is_token_byte(byte: u8) -> bool {
    ||| byte == 33
    ||| 35 <= byte <= 39
    ||| 42 <= byte <= 43
    ||| 45 <= byte <= 46
    ||| 48 <= byte <= 57
    ||| 65 <= byte <= 90
    ||| 94 <= byte <= 122
    ||| byte == 124
    ||| byte == 126
}

/// A letter in lower case.
pub open spec fn lower_byte(byte: u8) -> u8 {
    if 65 <= byte <= 90 {
        (byte + 32) as u8
    } else {
        byte
    }
}

/// Whether a text names a header: it has a byte, not too many of them, and if they are few, all
/// may stand in a name. The bytes of a longer text are not looked at.
pub open spec fn names_header(name: Seq<u8>) -> bool {
    &&& 0 < name.len() <= 65535
    &&& name.len() <= 64 ==> forall|i: int|
        0 <= i < name.len() ==> is_token_byte(#[trigger] name[i])
}

/// The name under which a header is kept: in lower case, and with a zero for every byte that may
/// not stand in a name.
pub open spec fn header_key(name: Seq<u8>) -> Seq<u8> {
    Seq::new(
        name.len(),
        |i: int|
            if is_token_byte(name[i]) {
                lower_byte(name[i])
            } else {
                0
            },
    )
}

/// Whether some bytes may be the value of a header: no control character but the tab.
pub open spec fn is_header_value(value: Seq<u8>) -> bool {
    forall|i: int|
        0 <= i < value.len() ==> ((#[trigger] value[i]) >= 32 && value[i] != 127) || value[i] == 9
}

/// A header map with fewer names than this takes another one.
pub open spec fn sure_capacity() -> nat {
    6554
}

/// Calls `HeaderValue::from_bytes`. Claimed: it accepts exactly the header values.
#[verifier::external_body]
pub(crate) fn accepts_value(value: &Vec<u8>) -> (accepted: bool)
    ensures
        accepted == is_header_value(value@),
{
    HeaderValue::from_bytes(value.as_slice()).is_ok()
}

/// Calls `HeaderMap::contains_key`. Claimed: it tells whether the text names a header and the map
/// holds one under the key of that name. A text of more than 64 bytes is looked up without a check
/// of its bytes, as [`header_key`] says.
#[verifier::external_body]
pub(crate) fn headers_contain(headers: &HeaderMap, name: &str) -> (contained: bool)
    ensures
        contained == (names_header(encode_utf8(name@)) && header_contents(*headers).contains_key(
            header_key(encode_utf8(name@)),
        )),
{
    headers.contains_key(name)
}

/// Calls `HeaderMap::try_insert`, which is `HeaderMap::insert` but for a full map. Claimed: the
/// header has the given value and no other, the first of its former values is returned, and
/// every other header is as it was. A full map is left as it is; one with fewer names than
/// [`sure_capacity`] is not full. When a larger map is full depends on its layout and is not
/// stated. The text becomes a `HeaderName` as `HeaderMap::try_entry` makes one of it, in an empty
/// map: as for a static text, more than 64 bytes are taken without a check.
#[verifier::external_body]
pub(crate) fn headers_insert(headers: &mut HeaderMap, name: &str, value: HeaderBytes) -> (outcome:
    Result<Option<HeaderBytes>, MaxSizeReached>)
    requires
        names_header(encode_utf8(name@)),
        is_header_value(value.bytes@),
    ensures
        match outcome {
            Ok(previous) => inserted(
                header_contents(*old(headers)),
                header_key(encode_utf8(name@)),
                value.view(),
                header_contents(*final(headers)),
                previous,
            ),
            Err(_) => header_contents(*final(headers)) == header_contents(*old(headers)),
        },
        header_contents(*old(headers)).dom().len() < sure_capacity() ==> outcome is Ok,
{
    let mut parsed = HeaderMap::new();
    let name = parsed.try_entry(name).unwrap().key().clone();
    let mut given = HeaderValue::from_bytes(value.bytes.as_slice()).unwrap();
    given.set_sensitive(value.sensitive);
    let previous = headers.try_insert(name, given)?;
    Ok(previous.map(|value| HeaderBytes {
        bytes: value.as_bytes().to_vec(),
        sensitive: value.is_sensitive(),
    }))
}

/// Calls `HeaderMap::try_append`, which is `HeaderMap::append` but for a full map. Claimed: the
/// value comes after those that the header had, the answer tells whether it had any, and every
/// other header is as it was. Of a full map the same is claimed as of `HeaderMap::try_insert`, and
/// the name is made in the same way.
#[verifier::external_body]
pub(crate) fn headers_append(headers: &mut HeaderMap, name: &str, value: HeaderBytes) -> (outcome:
    Result<bool, MaxSizeReached>)
    requires
        names_header(encode_utf8(name@)),
        is_header_value(value.bytes@),
    ensures
        match outcome {
            Ok(existed) => appended(
                header_contents(*old(headers)),
                header_key(encode_utf8(name@)),
                value.view(),
                header_contents(*final(headers)),
                existed,
            ),
            Err(_) => header_contents(*final(headers)) == header_contents(*old(headers)),
        },
        header_contents(*old(headers)).dom().len() < sure_capacity() ==> outcome is Ok,
{
    let mut parsed = HeaderMap::new();
    let name = parsed.try_entry(name).unwrap().key().clone();
    let mut given = HeaderValue::from_bytes(value.bytes.as_slice()).unwrap();
    given.set_sensitive(value.sensitive);
    headers.try_append(name, given)
}

/// What a header map holds, by the keys of the headers.
pub type HeaderView = Map<Seq<u8>, Seq<(Seq<u8>, bool)>>;

/// What inserting a header does and returns.
pub open spec fn inserted(
    before: HeaderView,
    key: Seq<u8>,
    value: (Seq<u8>, bool),
    after: HeaderView,
    previous: Option<HeaderBytes>,
) -> bool {
    &&& after == before.insert(key, seq![value])
    &&& match previous {
        Some(previous) => before.contains_key(key) && previous.view() == before[key].first(),
        None => !before.contains_key(key),
    }
}

/// What appending a header does and returns.
pub open spec fn appended(
    before: HeaderView,
    key: Seq<u8>,
    value: (Seq<u8>, bool),
    after: HeaderView,
    existed: bool,
) -> bool {
    &&& existed == before.contains_key(key)
    &&& after == before.insert(
        key,
        if before.contains_key(key) {
            before[key].push(value)
        } else {
            seq![value]
        },
    )
}

/// The refusal of a header map that is full.
#[derive(Debug, Clone, Copy, PartialEq, Eq, Structural)]
pub struct HeaderMapFull;

/// A header that was inserted is there, with that value alone; every other header stays as it was.
pub proof fn law_inserted_is_contained(
    before: HeaderView,
    key: Seq<u8>,
    value: (Seq<u8>, bool),
    after: HeaderView,
    previous: Option<HeaderBytes>,
    other: Seq<u8>,
)
    requires
        inserted(before, key, value, after, previous),
    ensures
        after.contains_key(key),
        after[key] == seq![value],
        other != key ==> after.contains_key(other) == before.contains_key(other),
        other != key && before.contains_key(other) ==> after[other] == before[other],
{
}

/// Of two values inserted for one header the second replaces the first, which is handed back.
pub proof fn law_insert_overwrites(
    before: HeaderView,
    key: Seq<u8>,
    first: (Seq<u8>, bool),
    between: HeaderView,
    replaced: Option<HeaderBytes>,
    second: (Seq<u8>, bool),
    after: HeaderView,
    previous: Option<HeaderBytes>,
)
    requires
        inserted(before, key, first, between, replaced),
        inserted(between, key, second, after, previous),
    ensures
        previous matches Some(value) && value.view() == first,
        after[key] == seq![second],
        after == before.insert(key, seq![second]),
{
    assert(after =~= before.insert(key, seq![second]));
}

/// A value appended after one that was inserted comes after it, and the header is said to have
/// been there.
pub proof fn law_append_follows_insert(
    before: HeaderView,
    key: Seq<u8>,
    first: (Seq<u8>, bool),
    between: HeaderView,
    replaced: Option<HeaderBytes>,
    second: (Seq<u8>, bool),
    after: HeaderView,
    existed: bool,
)
    requires
        inserted(before, key, first, between, replaced),
        appended(between, key, second, after, existed),
    ensures
        existed,
        after[key] == seq![first, second],
{
    assert(after[key] =~= seq![first, second]);
}

/// Appending loses no value: those of the header come first, in the order they had, and every
/// other header stays as it was.
pub proof fn law_append_keeps_values(
    before: HeaderView,
    key: Seq<u8>,
    value: (Seq<u8>, bool),
    after: HeaderView,
    existed: bool,
    other: Seq<u8>,
)
    requires
        appended(before, key, value, after, existed),
    ensures
        after.contains_key(key),
        after[key].last() == value,
        before.contains_key(key) ==> after[key].drop_last() == before[key],
        !before.contains_key(key) ==> after[key].len() == 1,
        other != key ==> after.contains_key(other) == before.contains_key(other),
        other != key && before.contains_key(other) ==> after[other] == before[other],
{
    if before.contains_key(key) {
        assert(after[key].drop_last() =~= before[key]);
    }
}

/// Whether every header has a value.
pub open spec fn all_have_values(headers: HeaderView) -> bool {
    forall|key: Seq<u8>| #[trigger] headers.contains_key(key) ==> headers[key].len() > 0
}

/// Neither inserting nor appending leaves a header without a value.
pub proof fn law_headers_have_values(
    before: HeaderView,
    key: Seq<u8>,
    value: (Seq<u8>, bool),
    after: HeaderView,
)
    requires
        all_have_values(before),
        (exists|previous: Option<HeaderBytes>| inserted(before, key, value, after, previous)) || (
        exists|existed: bool| appended(before, key, value, after, existed)),
    ensures
        all_have_values(after),
{
}

/// Names that differ only in case name one header.
pub proof fn law_header_key_ignores_case(left: Seq<u8>, right: Seq<u8>)
    requires
        left.len() == right.len(),
        forall|i: int|
            0 <= i < left.len() ==> lower_byte(#[trigger] left[i]) == lower_byte(right[i]),
    ensures
        names_header(left) == names_header(right),
        header_key(left) == header_key(right),
{
    assert forall|i: int| 0 <= i < left.len() implies is_token_byte(#[trigger] left[i])
        == is_token_byte(right[i]) by {
        assert(lower_byte(left[i]) == lower_byte(right[i]));
    }
    assert forall|i: int| 0 <= i < left.len() implies is_token_byte(#[trigger] right[i])
        == is_token_byte(left[i]) by {
        assert(is_token_byte(left[i]) == is_token_byte(right[i]));
    }
    assert(header_key(left) =~= header_key(right));
}

/// The key of a header is a name of that header.
pub proof fn law_header_key_is_a_name(name: Seq<u8>)
    requires
        names_header(name),
    ensures
        names_header(header_key(name)),
        header_key(header_key(name)) == header_key(name),
{
    let key = header_key(name);
    assert forall|i: int| name.len() <= 64 && 0 <= i < key.len() implies is_token_byte(
        #[trigger] key[i],
    ) by {
        assert(is_token_byte(name[i]));
    }
    assert(header_key(key) =~= key);
}

/// Two names of at most 64 bytes name one header only if they differ only in case.
pub proof fn law_short_keys_differ(left: Seq<u8>, right: Seq<u8>)
    requires
        names_header(left),
        names_header(right),
        left.len() <= 64,
        header_key(left) == header_key(right),
    ensures
        left.len() == right.len(),
        forall|i: int|
            0 <= i < left.len() ==> lower_byte(#[trigger] left[i]) == lower_byte(right[i]),
{
    assert(left.len() == header_key(left).len());
    assert(right.len() == header_key(right).len());
    assert forall|i: int| 0 <= i < left.len() implies lower_byte(#[trigger] left[i]) == lower_byte(
        right[i],
    ) by {
        assert(is_token_byte(left[i]));
        assert(is_token_byte(right[i]));
        assert(header_key(left)[i] == lower_byte(left[i]));
        assert(header_key(right)[i] == lower_byte(right[i]));
    }
}

/// A value is read as its bytes and whether it is sensitive.
pub proof fn law_header_bytes_view(value: HeaderBytes)
    ensures
        value.view().0 == value.bytes@,
        value.view().1 == value.sensitive,
{
}

/// Bytes may be the value of a header exactly if each of them is a tab, or neither a control
/// character nor 127.
pub proof fn law_header_value(value: Seq<u8>)
    ensures
        is_header_value(value) <==> forall|i: int|
            0 <= i < value.len() ==> (#[trigger] value[i]) == 9 || 32 <= value[i] <= 126 || value[i]
                >= 128,
{
    if is_header_value(value) {
        assert forall|i: int| 0 <= i < value.len() implies (#[trigger] value[i]) == 9 || 32
            <= value[i] <= 126 || value[i] >= 128 by {}
    }
}

/// Two values make one exactly if each of them is one.
pub proof fn law_header_value_parts(left: Seq<u8>, right: Seq<u8>)
    ensures
        is_header_value(left + right) <==> is_header_value(left) && is_header_value(right),
{
    let whole = left + right;
    if is_header_value(whole) {
        assert forall|i: int| 0 <= i < left.len() implies ((#[trigger] left[i]) >= 32 && left[i]
            != 127) || left[i] == 9 by {
            assert(whole[i] == left[i]);
        }
        assert forall|i: int| 0 <= i < right.len() implies ((#[trigger] right[i]) >= 32 && right[i]
            != 127) || right[i] == 9 by {
            assert(whole[left.len() + i] == right[i]);
        }
    }
}

/// A byte may stand in a name exactly if it is a letter, a digit or one of a few signs, and only
/// capital letters have another lower case.
pub proof fn law_name_bytes(byte: u8)
    ensures
        is_token_byte(byte) <==> {
            ||| 97 <= byte <= 122
            ||| 65 <= byte <= 90
            ||| 48 <= byte <= 57
            ||| byte == 33 || byte == 35 || byte == 36 || byte == 37 || byte == 38 || byte == 39
            ||| byte == 42 || byte == 43 || byte == 45 || byte == 46 || byte == 94 || byte == 95
            ||| byte == 96 || byte == 124 || byte == 126
        },
        65 <= byte <= 90 ==> lower_byte(byte) == byte + 32,
        !(65 <= byte <= 90) ==> lower_byte(byte) == byte,
{
}

/// A text of one to 64 bytes names a header exactly if each byte may stand in a name; one of 65 to
/// 65535 bytes always does, and any other never.
pub proof fn law_names_header(name: Seq<u8>)
    ensures
        name.len() == 0 ==> !names_header(name),
        name.len() > 65535 ==> !names_header(name),
        64 < name.len() <= 65535 ==> names_header(name),
        0 < name.len() <= 64 ==> (names_header(name) <==> forall|i: int|
            0 <= i < name.len() ==> is_token_byte(#[trigger] name[i])),
{
}

/// A header is kept under its name byte by byte: capital letters in lower case, any other byte that
/// may stand in a name as it is, and the rest as zeros.
pub proof fn law_header_key(name: Seq<u8>)
    ensures
        header_key(name).len() == name.len(),
        forall|i: int|
            0 <= i < name.len() ==> {
                let byte = #[trigger] name[i];
                &&& 65 <= byte <= 90 ==> header_key(name)[i] == byte + 32
                &&& is_token_byte(byte) && !(65 <= byte <= 90) ==> header_key(name)[i] == byte
                &&& !is_token_byte(byte) ==> header_key(name)[i] == 0
            },
{
}

/// Inserting hands back the first value that the header had, and nothing exactly if it had none.
pub proof fn law_insert_hands_back(
    before: HeaderView,
    key: Seq<u8>,
    value: (Seq<u8>, bool),
    after: HeaderView,
    previous: Option<HeaderBytes>,
)
    requires
        inserted(before, key, value, after, previous),
    ensures
        previous is Some <==> before.contains_key(key),
        previous matches Some(first) ==> first.bytes@ == before[key][0].0 && first.sensitive
            == before[key][0].1,
        after.dom() == before.dom().insert(key),
{
    assert(after.dom() =~= before.dom().insert(key));
}

/// Appending tells whether the header was there.
pub proof fn law_append_tells(
    before: HeaderView,
    key: Seq<u8>,
    value: (Seq<u8>, bool),
    after: HeaderView,
    existed: bool,
)
    requires
        appended(before, key, value, after, existed),
    ensures
        existed <==> before.contains_key(key),
        after.dom() == before.dom().insert(key),
        !existed ==> after[key] == seq![value],
        existed ==> after[key] == before[key].push(value),
{
    assert(after.dom() =~= before.dom().insert(key));
}

/// The number of names below which a header map takes another one.
pub proof fn law_sure_capacity()
    ensures
        sure_capacity() == 6554,
{
}

} // verus!
