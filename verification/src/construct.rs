use crate::error::ParseError;
use crate::number::{integer, whole};
use crate::grammar::document;
use crate::parser::Parser;
use crate::values::{lemma_array_view, list_view, pairs_view, Json, Values};
use vstd::utf8::encode_utf8;
use vstd::prelude::*;
use vstd::string::*;

verus! {

/// The natural number of at most `max` that a document holds: the document is a
/// number without a sign whose value is an integer.
pub open spec fn unsigned_of(j: Json, max: nat) -> Option<nat> {
    match j {
        Json::Number(t) => match whole(t) {
            Some(n) => if n <= max {
                Some(n)
            } else {
                None
            },
            None => None,
        },
        _ => None,
    }
}

/// The integer between `min` and `max` that a document holds: the document is a
/// number whose value is an integer.
pub open spec fn signed_of(j: Json, min: int, max: int) -> Option<int> {
    match j {
        Json::Number(t) => match integer(t) {
            Some(n) => if min <= n <= max {
                Some(n)
            } else {
                None
            },
            None => None,
        },
        _ => None,
    }
}

/// The natural number of at most `max` that `value` holds, or an error with an
/// empty message.
pub fn unsigned_from(value: &Values, max: u128) -> (r: Result<u128, ParseError>)
    ensures
        match unsigned_of(value@, max as nat) {
            Some(n) => r == Ok::<u128, ParseError>(n as u128),
            None => r matches Err(e) && e@ == Seq::<char>::empty(),
        },
{
    match value {
        Values::Number(number) => match number.to_u128() {
            Some(n) => if n <= max {
                Ok(n)
            } else {
                Err(ParseError::new())
            },
            None => Err(ParseError::new()),
        },
        _ => Err(ParseError::new()),
    }
}

/// The integer between `min` and `max` that `value` holds, or an error with an
/// empty message.
pub fn signed_from(value: &Values, min: i128, max: i128) -> (r: Result<i128, ParseError>)
    ensures
        match signed_of(value@, min as int, max as int) {
            Some(n) => r == Ok::<i128, ParseError>(n as i128),
            None => r matches Err(e) && e@ == Seq::<char>::empty(),
        },
{
    match value {
        Values::Number(number) => match number.to_i128() {
            Some(n) => if min <= n && n <= max {
                Ok(n)
            } else {
                Err(ParseError::new())
            },
            None => Err(ParseError::new()),
        },
        _ => Err(ParseError::new()),
    }
}

impl TryFrom<Values> for u8 {
    type Error = ParseError;

    fn try_from(value: Values) -> (r: Result<u8, ParseError>)
        ensures
            match unsigned_of(value@, u8::MAX as nat) {
                Some(n) => r == Ok::<u8, ParseError>(n as u8),
                None => r matches Err(e) && e@ == Seq::<char>::empty(),
            },
    {
        match unsigned_from(&value, 0xff) {
            Ok(n) => Ok(n as u8),
            Err(e) => Err(e),
        }
    }
}

impl vstd::std_specs::convert::TryFromSpecImpl<Values> for u8 {
    open spec fn obeys_try_from_spec() -> bool {
        false
    }

    open spec fn try_from_spec(v: Values) -> Result<Self, ParseError> {
        arbitrary()
    }
}

impl TryFrom<Values> for usize {
    type Error = ParseError;

    fn try_from(value: Values) -> (r: Result<usize, ParseError>)
        ensures
            match unsigned_of(value@, usize::MAX as nat) {
                Some(n) => r == Ok::<usize, ParseError>(n as usize),
                None => r matches Err(e) && e@ == Seq::<char>::empty(),
            },
    {
        match unsigned_from(&value, usize::MAX as u128) {
            Ok(n) => Ok(n as usize),
            Err(e) => Err(e),
        }
    }
}

impl vstd::std_specs::convert::TryFromSpecImpl<Values> for usize {
    open spec fn obeys_try_from_spec() -> bool {
        false
    }

    open spec fn try_from_spec(v: Values) -> Result<Self, ParseError> {
        arbitrary()
    }
}

impl TryFrom<Values> for u16 {
    type Error = ParseError;

    fn try_from(value: Values) -> (r: Result<u16, ParseError>)
        ensures
            match unsigned_of(value@, u16::MAX as nat) {
                Some(n) => r == Ok::<u16, ParseError>(n as u16),
                None => r matches Err(e) && e@ == Seq::<char>::empty(),
            },
    {
        match unsigned_from(&value, u16::MAX as u128) {
            Ok(n) => Ok(n as u16),
            Err(e) => Err(e),
        }
    }
}

impl vstd::std_specs::convert::TryFromSpecImpl<Values> for u16 {
    open spec fn obeys_try_from_spec() -> bool {
        false
    }

    open spec fn try_from_spec(v: Values) -> Result<Self, ParseError> {
        arbitrary()
    }
}

impl TryFrom<Values> for u32 {
    type Error = ParseError;

    fn try_from(value: Values) -> (r: Result<u32, ParseError>)
        ensures
            match unsigned_of(value@, u32::MAX as nat) {
                Some(n) => r == Ok::<u32, ParseError>(n as u32),
                None => r matches Err(e) && e@ == Seq::<char>::empty(),
            },
    {
        match unsigned_from(&value, u32::MAX as u128) {
            Ok(n) => Ok(n as u32),
            Err(e) => Err(e),
        }
    }
}

impl vstd::std_specs::convert::TryFromSpecImpl<Values> for u32 {
    open spec fn obeys_try_from_spec() -> bool {
        false
    }

    open spec fn try_from_spec(v: Values) -> Result<Self, ParseError> {
        arbitrary()
    }
}

impl TryFrom<Values> for u64 {
    type Error = ParseError;

    fn try_from(value: Values) -> (r: Result<u64, ParseError>)
        ensures
            match unsigned_of(value@, u64::MAX as nat) {
                Some(n) => r == Ok::<u64, ParseError>(n as u64),
                None => r matches Err(e) && e@ == Seq::<char>::empty(),
            },
    {
        match unsigned_from(&value, u64::MAX as u128) {
            Ok(n) => Ok(n as u64),
            Err(e) => Err(e),
        }
    }
}

impl vstd::std_specs::convert::TryFromSpecImpl<Values> for u64 {
    open spec fn obeys_try_from_spec() -> bool {
        false
    }

    open spec fn try_from_spec(v: Values) -> Result<Self, ParseError> {
        arbitrary()
    }
}

impl TryFrom<Values> for u128 {
    type Error = ParseError;

    fn try_from(value: Values) -> (r: Result<u128, ParseError>)
        ensures
            match unsigned_of(value@, u128::MAX as nat) {
                Some(n) => r == Ok::<u128, ParseError>(n as u128),
                None => r matches Err(e) && e@ == Seq::<char>::empty(),
            },
    {
        match unsigned_from(&value, u128::MAX as u128) {
            Ok(n) => Ok(n as u128),
            Err(e) => Err(e),
        }
    }
}

impl vstd::std_specs::convert::TryFromSpecImpl<Values> for u128 {
    open spec fn obeys_try_from_spec() -> bool {
        false
    }

    open spec fn try_from_spec(v: Values) -> Result<Self, ParseError> {
        arbitrary()
    }
}

impl TryFrom<Values> for isize {
    type Error = ParseError;

    fn try_from(value: Values) -> (r: Result<isize, ParseError>)
        ensures
            match signed_of(value@, isize::MIN as int, isize::MAX as int) {
                Some(n) => r == Ok::<isize, ParseError>(n as isize),
                None => r matches Err(e) && e@ == Seq::<char>::empty(),
            },
    {
        match signed_from(&value, isize::MIN as i128, isize::MAX as i128) {
            Ok(n) => Ok(n as isize),
            Err(e) => Err(e),
        }
    }
}

impl vstd::std_specs::convert::TryFromSpecImpl<Values> for isize {
    open spec fn obeys_try_from_spec() -> bool {
        false
    }

    open spec fn try_from_spec(v: Values) -> Result<Self, ParseError> {
        arbitrary()
    }
}

impl TryFrom<Values> for i8 {
    type Error = ParseError;

    fn try_from(value: Values) -> (r: Result<i8, ParseError>)
        ensures
            match signed_of(value@, i8::MIN as int, i8::MAX as int) {
                Some(n) => r == Ok::<i8, ParseError>(n as i8),
                None => r matches Err(e) && e@ == Seq::<char>::empty(),
            },
    {
        match signed_from(&value, i8::MIN as i128, i8::MAX as i128) {
            Ok(n) => Ok(n as i8),
            Err(e) => Err(e),
        }
    }
}

impl vstd::std_specs::convert::TryFromSpecImpl<Values> for i8 {
    open spec fn obeys_try_from_spec() -> bool {
        false
    }

    open spec fn try_from_spec(v: Values) -> Result<Self, ParseError> {
        arbitrary()
    }
}

impl TryFrom<Values> for i16 {
    type Error = ParseError;

    fn try_from(value: Values) -> (r: Result<i16, ParseError>)
        ensures
            match signed_of(value@, i16::MIN as int, i16::MAX as int) {
                Some(n) => r == Ok::<i16, ParseError>(n as i16),
                None => r matches Err(e) && e@ == Seq::<char>::empty(),
            },
    {
        match signed_from(&value, i16::MIN as i128, i16::MAX as i128) {
            Ok(n) => Ok(n as i16),
            Err(e) => Err(e),
        }
    }
}

impl vstd::std_specs::convert::TryFromSpecImpl<Values> for i16 {
    open spec fn obeys_try_from_spec() -> bool {
        false
    }

    open spec fn try_from_spec(v: Values) -> Result<Self, ParseError> {
        arbitrary()
    }
}

impl TryFrom<Values> for i32 {
    type Error = ParseError;

    fn try_from(value: Values) -> (r: Result<i32, ParseError>)
        ensures
            match signed_of(value@, i32::MIN as int, i32::MAX as int) {
                Some(n) => r == Ok::<i32, ParseError>(n as i32),
                None => r matches Err(e) && e@ == Seq::<char>::empty(),
            },
    {
        match signed_from(&value, i32::MIN as i128, i32::MAX as i128) {
            Ok(n) => Ok(n as i32),
            Err(e) => Err(e),
        }
    }
}

impl vstd::std_specs::convert::TryFromSpecImpl<Values> for i32 {
    open spec fn obeys_try_from_spec() -> bool {
        false
    }

    open spec fn try_from_spec(v: Values) -> Result<Self, ParseError> {
        arbitrary()
    }
}

impl TryFrom<Values> for i64 {
    type Error = ParseError;

    fn try_from(value: Values) -> (r: Result<i64, ParseError>)
        ensures
            match signed_of(value@, i64::MIN as int, i64::MAX as int) {
                Some(n) => r == Ok::<i64, ParseError>(n as i64),
                None => r matches Err(e) && e@ == Seq::<char>::empty(),
            },
    {
        match signed_from(&value, i64::MIN as i128, i64::MAX as i128) {
            Ok(n) => Ok(n as i64),
            Err(e) => Err(e),
        }
    }
}

impl vstd::std_specs::convert::TryFromSpecImpl<Values> for i64 {
    open spec fn obeys_try_from_spec() -> bool {
        false
    }

    open spec fn try_from_spec(v: Values) -> Result<Self, ParseError> {
        arbitrary()
    }
}

impl TryFrom<Values> for i128 {
    type Error = ParseError;

    fn try_from(value: Values) -> (r: Result<i128, ParseError>)
        ensures
            match signed_of(value@, i128::MIN as int, i128::MAX as int) {
                Some(n) => r == Ok::<i128, ParseError>(n as i128),
                None => r matches Err(e) && e@ == Seq::<char>::empty(),
            },
    {
        match signed_from(&value, i128::MIN as i128, i128::MAX as i128) {
            Ok(n) => Ok(n as i128),
            Err(e) => Err(e),
        }
    }
}

impl vstd::std_specs::convert::TryFromSpecImpl<Values> for i128 {
    open spec fn obeys_try_from_spec() -> bool {
        false
    }

    open spec fn try_from_spec(v: Values) -> Result<Self, ParseError> {
        arbitrary()
    }
}

impl TryFrom<Values> for bool {
    type Error = ParseError;

    fn try_from(value: Values) -> (r: Result<bool, ParseError>)
        ensures
            match value@ {
                Json::Boolean(b) => r == Ok::<bool, ParseError>(b),
                _ => r matches Err(e) && e@ == Seq::<char>::empty(),
            },
    {
        match value {
            Values::Boolean(b) => Ok(b),
            _ => Err(ParseError::new()),
        }
    }
}

impl vstd::std_specs::convert::TryFromSpecImpl<Values> for bool {
    open spec fn obeys_try_from_spec() -> bool {
        false
    }

    open spec fn try_from_spec(v: Values) -> Result<Self, ParseError> {
        arbitrary()
    }
}

impl TryFrom<Values> for char {
    type Error = ParseError;

    fn try_from(value: Values) -> (r: Result<char, ParseError>)
        ensures
            match value@ {
                Json::Text(t) => if t.len() > 0 {
                    r == Ok::<char, ParseError>(t[0])
                } else {
                    r matches Err(e) && e@ == Seq::<char>::empty()
                },
                _ => r matches Err(e) && e@ == Seq::<char>::empty(),
            },
    {
        match value {
            Values::String(s) => {
                if s.as_str().is_empty() {
                    Err(ParseError::new())
                } else {
                    Ok(s.as_str().get_char(0))
                }
            },
            _ => Err(ParseError::new()),
        }
    }
}

impl vstd::std_specs::convert::TryFromSpecImpl<Values> for char {
    open spec fn obeys_try_from_spec() -> bool {
        false
    }

    open spec fn try_from_spec(v: Values) -> Result<Self, ParseError> {
        arbitrary()
    }
}

impl TryFrom<Values> for String {
    type Error = ParseError;

    fn try_from(value: Values) -> (r: Result<String, ParseError>)
        ensures
            match value@ {
                Json::Text(t) => r matches Ok(s) && s@ == t,
                _ => r matches Err(e) && e@ == Seq::<char>::empty(),
            },
    {
        match value {
            Values::String(s) => Ok(s),
            _ => Err(ParseError::new()),
        }
    }
}

impl vstd::std_specs::convert::TryFromSpecImpl<Values> for String {
    open spec fn obeys_try_from_spec() -> bool {
        false
    }

    open spec fn try_from_spec(v: Values) -> Result<Self, ParseError> {
        arbitrary()
    }
}

/// `out` is what the conversion of `T` may give for a value whose content is `j`.
pub open spec fn converts<T: TryFrom<Values>>(j: Json, out: Result<T, T::Error>) -> bool {
    exists|v: Values| v@ == j && call_ensures(T::try_from, (v,), out)
}

/// The conversion of `T` may succeed on a value whose content is `j`.
pub open spec fn can_convert<T: TryFrom<Values>>(j: Json) -> bool {
    exists|t: T| converts::<T>(j, Ok(t))
}

/// The item at place `at` is the first whose conversion fails, and it may fail
/// with `e`: every item before it converts.
pub open spec fn first_failure<T: TryFrom<Values, Error = ParseError>>(
    a: Seq<Json>,
    at: int,
    e: ParseError,
) -> bool {
    &&& 0 <= at < a.len()
    &&& converts::<T>(a[at], Err(e))
    &&& forall|k: int| 0 <= k < at ==> can_convert::<T>(#[trigger] a[k])
}

/// `r` is what reading a list out of the document `j` may give: the items of an
/// array, converted one by one in their order; or the error of the first
/// conversion that failed, as it is; or an error with an empty message, where `j`
/// is no array.
pub open spec fn reads_list<T: TryFrom<Values, Error = ParseError>>(
    j: Json,
    r: Result<Vec<T>, ParseError>,
) -> bool {
    match r {
        Ok(list) => j matches Json::Array(a) && list@.len() == a.len() && forall|i: int|
            0 <= i < a.len() ==> converts::<T>(a[i], Ok(#[trigger] list@[i])),
        Err(e) => match j {
            Json::Array(a) => exists|i: int| #[trigger] first_failure::<T>(a, i, e),
            _ => e@ == Seq::<char>::empty(),
        },
    }
}

/// Where the item at place `at` is the first to fail, and fails with `e`, reading
/// the list may fail with `e`.
pub proof fn lemma_item_fails<T: TryFrom<Values, Error = ParseError>>(
    j: Json,
    at: int,
    e: ParseError,
)
    requires
        j is Array,
        first_failure::<T>(j->Array_0, at, e),
    ensures
        reads_list::<T>(j, Err(e)),
{
    let r = Err::<Vec<T>, ParseError>(e);
    let a = j->Array_0;
    assert(exists|i: int| #[trigger] first_failure::<T>(a, i, e));
    assert(r->Err_0 == e);
    assert(match j {
        Json::Array(b) => exists|i: int| #[trigger] first_failure::<T>(b, i, r->Err_0),
        _ => false,
    });
    assert(match r {
        Ok(list) => false,
        Err(x) => match j {
            Json::Array(b) => exists|i: int| #[trigger] first_failure::<T>(b, i, x),
            _ => false,
        },
    });
}

impl<T: TryFrom<Values, Error = ParseError>> TryFrom<Values> for Vec<T> {
    type Error = ParseError;

    fn try_from(value: Values) -> (r: Result<Vec<T>, ParseError>)
        ensures
            reads_list::<T>(value@, r),
    {
        let ghost whole = value@;
        match value {
            Values::Array(items) => {
                let ghost all = items@;
                proof {
                    lemma_array_view(items);
                }
                let mut post: Vec<T> = Vec::with_capacity(items.len());
                for item in it: items
                    invariant
                        it.seq() == all,
                        whole == Json::Array(list_view(all)),
                        whole == value@,
                        post@.len() == it.index(),
                        forall|i: int|
                            0 <= i < it.index() ==> converts::<T>(all[i]@, Ok(#[trigger] post@[i])),
                {
                    let ghost j = item@;
                    match T::try_from(item) {
                        Ok(t) => {
                            assert(converts::<T>(j, Ok(t)));
                            post.push(t);
                        },
                        Err(e) => {
                            proof {
                                let a = whole->Array_0;
                                assert(0 <= it.index() < all.len());
                                assert(a[it.index()] == j);
                                assert(converts::<T>(a[it.index()], Err(e)));
                                assert forall|k: int| 0 <= k < it.index() implies can_convert::<T>(
                                    #[trigger] a[k],
                                ) by {
                                    assert(converts::<T>(a[k], Ok(post@[k])));
                                }
                                lemma_item_fails::<T>(whole, it.index(), e);
                            }
                            return Err(e);
                        },
                    }
                }
                Ok(post)
            },
            _ => Err(ParseError::new()),
        }
    }
}

impl<T: TryFrom<Values, Error = ParseError>> vstd::std_specs::convert::TryFromSpecImpl<Values> for Vec<T> {
    open spec fn obeys_try_from_spec() -> bool {
        false
    }

    open spec fn try_from_spec(v: Values) -> Result<Self, ParseError> {
        arbitrary()
    }
}

/// `out` is what the conversion of `K` may give for the key `key` of a member. The
/// key is first handed over as a string, as it stands. Where `K` does not take a
/// string, the key is read as a document and that is converted; a key that is no
/// document either gives an error with an empty message.
pub open spec fn converts_key<K: TryFrom<Values, Error = ParseError>>(
    key: Seq<char>,
    out: Result<K, ParseError>,
) -> bool {
    ||| out is Ok && converts::<K>(Json::Text(key), out)
    ||| (exists|e: ParseError| converts::<K>(Json::Text(key), Err(e))) && match document(
        encode_utf8(key),
    ) {
        Some(j) => converts::<K>(j, out),
        None => out matches Err(e) && e@ == Seq::<char>::empty(),
    }
}

/// The key `key` of a member, converted: as a string where `K` takes one, else
/// read as a document.
pub fn key_from<K: TryFrom<Values, Error = ParseError>>(key: &str) -> (r: Result<K, ParseError>)
    ensures
        converts_key::<K>(key@, r),
{
    let text = Values::String(key.to_owned());
    assert(text@ == Json::Text(key@));
    let first = K::try_from(text);
    assert(converts::<K>(Json::Text(key@), first));
    match first {
        Ok(k) => Ok(k),
        Err(refused) => {
            assert(converts::<K>(Json::Text(key@), Err(refused)));
            match Parser::new(key).parse() {
                Ok(v) => {
                    let ghost j = v@;
                    let r = K::try_from(v);
                    assert(converts::<K>(j, r));
                    r
                },
                Err(e) => Err(e),
            }
        },
    }
}

/// The conversion of `K` may succeed on the key `key` of a member.
pub open spec fn can_convert_key<K: TryFrom<Values, Error = ParseError>>(key: Seq<char>) -> bool {
    exists|k: K| converts_key::<K>(key, Ok(k))
}

/// The conversions of the member's key and of its value may succeed.
pub open spec fn member_converts<K, V>(member: (Seq<char>, Json)) -> bool where
    K: TryFrom<Values, Error = ParseError>,
    V: TryFrom<Values, Error = ParseError>,
 {
    can_convert_key::<K>(member.0) && can_convert::<V>(member.1)
}

/// The conversion of the member's key may fail with `e`, or that of its value
/// behind a key that converts.
pub open spec fn member_fails<K, V>(member: (Seq<char>, Json), e: ParseError) -> bool where
    K: TryFrom<Values, Error = ParseError>,
    V: TryFrom<Values, Error = ParseError>,
 {
    converts_key::<K>(member.0, Err(e)) || (can_convert_key::<K>(member.0) && converts::<V>(
        member.1,
        Err(e),
    ))
}

/// The member at place `at` is the first whose conversion fails, and it may fail
/// with `e`: every member before it converts.
pub open spec fn first_member_failure<K, V>(
    m: Seq<(Seq<char>, Json)>,
    at: int,
    e: ParseError,
) -> bool where
    K: TryFrom<Values, Error = ParseError>,
    V: TryFrom<Values, Error = ParseError>,
 {
    &&& 0 <= at < m.len()
    &&& member_fails::<K, V>(m[at], e)
    &&& forall|k: int| 0 <= k < at ==> member_converts::<K, V>(#[trigger] m[k])
}

/// `r` is what reading the entries of a map out of the document `j` may give: the
/// entries of all members in their order, or the error of the first conversion that
/// failed, or an error with an empty message where `j` is no object.
pub open spec fn reads_entries<K, V>(j: Json, r: Result<Vec<(K, V)>, ParseError>) -> bool where
    K: TryFrom<Values, Error = ParseError>,
    V: TryFrom<Values, Error = ParseError>,
 {
    match r {
        Ok(list) => j matches Json::Object(m) && list@.len() == m.len() && forall|i: int|
            0 <= i < m.len() ==> converts_key::<K>(m[i].0, Ok((#[trigger] list@[i]).0))
                && converts::<V>(m[i].1, Ok(list@[i].1)),
        Err(e) => match j {
            Json::Object(m) => exists|i: int| #[trigger] first_member_failure::<K, V>(m, i, e),
            _ => e@ == Seq::<char>::empty(),
        },
    }
}

/// Where the member at place `at` is the first to fail, and fails with `e`,
/// reading the entries may fail with `e`.
pub proof fn lemma_entry_fails<K, V>(j: Json, at: int, e: ParseError) where
    K: TryFrom<Values, Error = ParseError>,
    V: TryFrom<Values, Error = ParseError>,

    requires
        j is Object,
        first_member_failure::<K, V>(j->Object_0, at, e),
    ensures
        reads_entries::<K, V>(j, Err(e)),
{
    let r = Err::<Vec<(K, V)>, ParseError>(e);
    let m = j->Object_0;
    assert(exists|i: int| #[trigger] first_member_failure::<K, V>(m, i, e));
    assert(r->Err_0 == e);
    assert(match j {
        Json::Object(m2) => exists|i: int| #[trigger] first_member_failure::<K, V>(m2, i, r->Err_0),
        _ => false,
    });
    assert(match r {
        Ok(list) => false,
        Err(x) => match j {
            Json::Object(m2) => exists|i: int| #[trigger] first_member_failure::<K, V>(m2, i, x),
            _ => false,
        },
    });
}

/// The entries of a map that an object stands for, in the order of its members:
/// each key read as a document and converted, each value converted. The first
/// error of a conversion is handed on as it is; a value that is no object gives an
/// error with an empty message.
pub fn entries_from<K, V>(value: Values) -> (r: Result<Vec<(K, V)>, ParseError>) where
    K: TryFrom<Values, Error = ParseError>,
    V: TryFrom<Values, Error = ParseError>,

    ensures
        reads_entries::<K, V>(value@, r),
{
    let ghost whole = value@;
    match value {
        Values::Struct(members) => {
            let entries = members.into_entries();
            let ghost all = entries@;
            let mut post: Vec<(K, V)> = Vec::with_capacity(entries.len());
            for entry in it: entries
                invariant
                    it.seq() == all,
                    whole == Json::Object(pairs_view(all)),
                    whole == value@,
                    post@.len() == it.index(),
                    forall|i: int|
                        0 <= i < it.index() ==> converts_key::<K>(
                            all[i].0@,
                            Ok((#[trigger] post@[i]).0),
                        ) && converts::<V>(all[i].1@, Ok(post@[i].1)),
            {
                let ghost at = it.index();
                let ghost m = pairs_view(all);
                assert(0 <= at < all.len());
                assert(m[at] == (all[at].0@, all[at].1@));
                let (name, item) = entry;
                let key = match key_from::<K>(name.as_str()) {
                    Ok(k) => k,
                    Err(e) => {
                        assert(member_fails::<K, V>(m[at], e));
                        proof {
                            assert forall|k: int| 0 <= k < at implies member_converts::<K, V>(
                                #[trigger] m[k],
                            ) by {
                                assert(converts_key::<K>(m[k].0, Ok(post@[k].0)));
                                assert(converts::<V>(m[k].1, Ok(post@[k].1)));
                            }
                            lemma_entry_fails::<K, V>(whole, at, e);
                        }
                        return Err(e);
                    },
                };
                assert(converts_key::<K>(m[at].0, Ok(key)));
                let ghost j = item@;
                let val = match V::try_from(item) {
                    Ok(v) => {
                        assert(converts::<V>(j, Ok(v)));
                        v
                    },
                    Err(e) => {
                        assert(converts::<V>(m[at].1, Err(e)));
                        assert(can_convert_key::<K>(m[at].0));
                        assert(member_fails::<K, V>(m[at], e));
                        proof {
                            assert forall|k: int| 0 <= k < at implies member_converts::<K, V>(
                                #[trigger] m[k],
                            ) by {
                                assert(converts_key::<K>(m[k].0, Ok(post@[k].0)));
                                assert(converts::<V>(m[k].1, Ok(post@[k].1)));
                            }
                            lemma_entry_fails::<K, V>(whole, at, e);
                        }
                        return Err(e);
                    },
                };
                post.push((key, val));
            }
            Ok(post)
        },
        _ => Err(ParseError::new()),
    }
}

} // verus!
