use vstd::prelude::*;
use crate::changelog::{copy_strings, packages_view, PackageInfo, PackageView};
use crate::store::text_eq;
use vstd::utf8::{decode_utf8, valid_utf8};

verus! {

/// A JSON document, as the response decoder reads it. Numbers keep their
/// textual form.
pub enum Json {
    Null,
    Bool(bool),
    Number(String),
    Str(String),
    Array(Vec<Json>),
    Object(Vec<(String, Json)>),
}

/// Relies on `String::from_utf8`: succeeds exactly on valid UTF-8 and keeps
/// the characters that the bytes encode.
#[verifier::external_body]
fn utf8_text(b: Vec<u8>) -> (r: Option<String>)
    ensures
        r is Some <==> valid_utf8(b@),
        r matches Some(s) ==> s@ == decode_utf8(b@),
{
    String::from_utf8(b).ok()
}

/// The text of decrypted response bytes, before it is read as JSON.
pub fn response_text(plain: Vec<u8>) -> (r: Result<String, DecodeError>)
    ensures
        r is Ok <==> valid_utf8(plain@),
        r matches Ok(s) ==> s@ == decode_utf8(plain@),
        r is Err ==> r == Err::<String, DecodeError>(DecodeError::NotUtf8),
{
    match utf8_text(plain) {
        Some(s) => Ok(s),
        None => Err(DecodeError::NotUtf8),
    }
}

/// Which of the two response shapes a document had.
#[derive(Debug, Clone, Copy, PartialEq, Eq)]
pub enum ResponseShape {
    /// A bare list of package descriptors.
    Canonical,
    /// An object whose `software` field holds the list.
    Legacy,
}

/// Why a response was rejected as a whole.
#[derive(Debug, Clone, Copy, PartialEq, Eq)]
pub enum DecodeError {
    /// The decrypted bytes are not UTF-8 text.
    NotUtf8,
    /// The document has the older object shape, which the caller did not
    /// accept.
    LegacyShape,
    /// The document is neither a list nor an object with a `software` list.
    UnexpectedShape,
    /// A descriptor is not an object.
    NotAnObject,
    /// A descriptor's `name` is missing, not a string, or empty.
    BadName,
    /// A descriptor's `version` is missing or not a string.
    BadVersion,
    /// A descriptor's `sources` is missing or not a list of strings.
    BadSources,
}

/// The value of the first field named `key`.
pub open spec fn field(fs: Seq<(String, Json)>, key: Seq<char>) -> Option<Json>
    decreases fs.len(),
{
    if fs.len() == 0 {
        None
    } else if fs[0].0@ == key {
        Some(fs[0].1)
    } else {
        field(fs.drop_first(), key)
    }
}

pub open spec fn key_name() -> Seq<char> {
    seq!['n', 'a', 'm', 'e']
}

pub open spec fn key_version() -> Seq<char> {
    seq!['v', 'e', 'r', 's', 'i', 'o', 'n']
}

pub open spec fn key_sources() -> Seq<char> {
    seq!['s', 'o', 'u', 'r', 'c', 'e', 's']
}

pub open spec fn key_software() -> Seq<char> {
    seq!['s', 'o', 'f', 't', 'w', 'a', 'r', 'e']
}

/// Whether every item is a string.
pub open spec fn all_strings(items: Seq<Json>) -> bool {
    forall|i: int| 0 <= i < items.len() ==> items[i] is Str
}

pub open spec fn strings_of(items: Seq<Json>) -> Seq<Seq<char>> {
    items.map_values(|j: Json| match j {
        Json::Str(s) => s@,
        _ => Seq::empty(),
    })
}

/// One descriptor read from its JSON object; other fields are ignored.
pub open spec fn package_result(v: Json) -> Result<PackageView, DecodeError> {
    match v {
        Json::Object(fs) => match field(fs@, key_name()) {
            Some(Json::Str(name)) if name@.len() > 0 => match field(fs@, key_version()) {
                Some(Json::Str(version)) => match field(fs@, key_sources()) {
                    Some(Json::Array(items)) if all_strings(items@) => Ok(
                        PackageView {
                            name: name@,
                            version: version@,
                            sources: strings_of(items@),
                        },
                    ),
                    _ => Err(DecodeError::BadSources),
                },
                _ => Err(DecodeError::BadVersion),
            },
            _ => Err(DecodeError::BadName),
        },
        _ => Err(DecodeError::NotAnObject),
    }
}

/// All descriptors of a list, in order; the first bad one rejects the list.
pub open spec fn packages_result(items: Seq<Json>) -> Result<Seq<PackageView>, DecodeError>
    decreases items.len(),
{
    if items.len() == 0 {
        Ok(Seq::empty())
    } else {
        match packages_result(items.drop_last()) {
            Err(e) => Err(e),
            Ok(ps) => match package_result(items.last()) {
                Err(e) => Err(e),
                Ok(p) => Ok(ps.push(p)),
            },
        }
    }
}

/// The list of descriptors in a response document, and its shape.
pub open spec fn response_items(doc: Json) -> Option<(ResponseShape, Seq<Json>)> {
    match doc {
        Json::Array(items) => Some((ResponseShape::Canonical, items@)),
        Json::Object(fs) => match field(fs@, key_software()) {
            Some(Json::Array(items)) => Some((ResponseShape::Legacy, items@)),
            _ => None,
        },
        _ => None,
    }
}

/// A whole response document read as descriptors.
pub open spec fn decode_spec(doc: Json) -> Result<(ResponseShape, Seq<PackageView>), DecodeError> {
    match response_items(doc) {
        None => Err(DecodeError::UnexpectedShape),
        Some((shape, items)) => match packages_result(items) {
            Err(e) => Err(e),
            Ok(ps) => Ok((shape, ps)),
        },
    }
}

/// The value of the first field named `key`.
pub fn get_field<'a>(fs: &'a Vec<(String, Json)>, key: &str) -> (r: Option<&'a Json>)
    ensures
        match r {
            Some(v) => field(fs@, key@) == Some(*v),
            None => field(fs@, key@) is None,
        },
{
    let mut i: usize = 0;
    proof {
        assert(fs@.skip(0) =~= fs@);
    }
    while i < fs.len()
        invariant
            i <= fs@.len(),
            field(fs@, key@) == field(fs@.skip(i as int), key@),
        decreases fs@.len() - i,
    {
        proof {
            assert(fs@.skip(i as int).drop_first() =~= fs@.skip(i + 1));
            assert(fs@.skip(i as int)[0] == fs@[i as int]);
        }
        if text_eq(fs[i].0.as_str(), key) {
            return Some(&fs[i].1);
        }
        i = i + 1;
    }
    None
}

/// The strings of a list whose items are all strings.
fn string_items(items: &Vec<Json>) -> (r: Option<Vec<String>>)
    ensures
        r is Some <==> all_strings(items@),
        r matches Some(v) ==> v.deep_view() == strings_of(items@),
{
    let mut out: Vec<String> = Vec::new();
    let mut i: usize = 0;
    while i < items.len()
        invariant
            i <= items@.len(),
            out@.len() == i,
            forall|j: int| 0 <= j < i ==> items@[j] is Str,
            forall|j: int| 0 <= j < i ==> out@[j]@ == strings_of(items@)[j],
        decreases items@.len() - i,
    {
        match &items[i] {
            Json::Str(s) => {
                out.push(s.clone());
            },
            _ => {
                return None;
            },
        }
        i = i + 1;
    }
    assert(out.deep_view() =~= strings_of(items@));
    Some(out)
}

/// Reads one descriptor object.
pub fn decode_package(v: &Json) -> (r: Result<PackageInfo, DecodeError>)
    ensures
        match r {
            Ok(p) => package_result(*v) == Ok::<PackageView, DecodeError>(p@),
            Err(e) => package_result(*v) == Err::<PackageView, DecodeError>(e),
        },
{
    proof {
        reveal_strlit("name");
        reveal_strlit("version");
        reveal_strlit("sources");
        assert("name"@ =~= key_name());
        assert("version"@ =~= key_version());
        assert("sources"@ =~= key_sources());
    }
    match v {
        Json::Object(fs) => {
            let name = match get_field(fs, "name") {
                Some(Json::Str(s)) => {
                    if s.as_str().unicode_len() == 0 {
                        return Err(DecodeError::BadName);
                    }
                    s
                },
                _ => {
                    return Err(DecodeError::BadName);
                },
            };
            let version = match get_field(fs, "version") {
                Some(Json::Str(s)) => s,
                _ => {
                    return Err(DecodeError::BadVersion);
                },
            };
            let sources = match get_field(fs, "sources") {
                Some(Json::Array(items)) => match string_items(items) {
                    Some(ss) => ss,
                    None => {
                        return Err(DecodeError::BadSources);
                    },
                },
                _ => {
                    return Err(DecodeError::BadSources);
                },
            };
            Ok(PackageInfo { name: name.clone(), version: version.clone(), sources })
        },
        _ => Err(DecodeError::NotAnObject),
    }
}

/// Reads every descriptor of a list; the first bad one rejects the list.
pub fn decode_packages(items: &Vec<Json>) -> (r: Result<Vec<PackageInfo>, DecodeError>)
    ensures
        match r {
            Ok(ps) => packages_result(items@) == Ok::<Seq<PackageView>, DecodeError>(packages_view(ps@)),
            Err(e) => packages_result(items@) == Err::<Seq<PackageView>, DecodeError>(e),
        },
{
    let mut out: Vec<PackageInfo> = Vec::new();
    let mut i: usize = 0;
    assert(items@.take(0).len() == 0);
    assert(packages_view(out@) =~= Seq::<PackageView>::empty());
    while i < items.len()
        invariant
            i <= items@.len(),
            packages_result(items@.take(i as int)) == Ok::<Seq<PackageView>, DecodeError>(
                packages_view(out@),
            ),
        decreases items@.len() - i,
    {
        proof {
            assert(items@.take(i + 1).drop_last() =~= items@.take(i as int));
            assert(items@.take(i + 1).last() == items@[i as int]);
        }
        let p = decode_package(&items[i]);
        match p {
            Ok(p) => {
                let ghost before = out@;
                out.push(p);
                assert(packages_view(out@) =~= packages_view(before).push(p@));
            },
            Err(e) => {
                proof {
                    lemma_first_error_stays(items@, i as int + 1);
                }
                return Err(e);
            },
        }
        i = i + 1;
    }
    assert(items@.take(i as int) =~= items@);
    Ok(out)
}

/// An error in a prefix is the error of the whole list.
proof fn lemma_first_error_stays(items: Seq<Json>, n: int)
    requires
        0 <= n <= items.len(),
        packages_result(items.take(n)) is Err,
    ensures
        packages_result(items) == packages_result(items.take(n)),
    decreases items.len() - n,
{
    if n < items.len() {
        assert(items.take(n + 1).drop_last() =~= items.take(n));
        lemma_first_error_stays(items, n + 1);
    } else {
        assert(items.take(n) =~= items);
    }
}

/// Reads a response document: a list of descriptors, or the older object
/// whose `software` field holds that list.
pub fn decode_response(doc: &Json) -> (r: Result<(ResponseShape, Vec<PackageInfo>), DecodeError>)
    ensures
        match r {
            Ok((shape, ps)) => decode_spec(*doc) == Ok::<(ResponseShape, Seq<PackageView>), DecodeError>(
                (shape, packages_view(ps@)),
            ),
            Err(e) => decode_spec(*doc) == Err::<(ResponseShape, Seq<PackageView>), DecodeError>(e),
        },
{
    proof {
        reveal_strlit("software");
        assert("software"@ =~= key_software());
    }
    let (shape, items) = match doc {
        Json::Array(items) => (ResponseShape::Canonical, items),
        Json::Object(fs) => match get_field(fs, "software") {
            Some(Json::Array(items)) => (ResponseShape::Legacy, items),
            _ => {
                return Err(DecodeError::UnexpectedShape);
            },
        },
        _ => {
            return Err(DecodeError::UnexpectedShape);
        },
    };
    match decode_packages(items) {
        Ok(ps) => Ok((shape, ps)),
        Err(e) => Err(e),
    }
}

} // verus!
