//! Validation and classification of a GELF message.

use vstd::prelude::*;
use vstd::string::*;
use crate::json::{
    distinct_keys, entries, find, has_key, keys_distinct, lemma_lookup_at, lookup, same_key, JsonValue,
};

verus! {

/// The eight severity levels of a GELF message, from 0 to 7.
#[derive(Debug, PartialEq, Eq, Structural, Clone, Copy)]
pub enum GelfLevel {
    Emergency,
    Alert,
    Critical,
    Error,
    Warning,
    Notice,
    Informational,
    Debug,
}

/// The level that a text names: exactly one digit from `0` to `7`.
pub open spec fn level_of_text(t: Seq<char>) -> Option<GelfLevel> {
    if t.len() != 1 {
        None
    } else if t[0] == '0' {
        Some(GelfLevel::Emergency)
    } else if t[0] == '1' {
        Some(GelfLevel::Alert)
    } else if t[0] == '2' {
        Some(GelfLevel::Critical)
    } else if t[0] == '3' {
        Some(GelfLevel::Error)
    } else if t[0] == '4' {
        Some(GelfLevel::Warning)
    } else if t[0] == '5' {
        Some(GelfLevel::Notice)
    } else if t[0] == '6' {
        Some(GelfLevel::Informational)
    } else if t[0] == '7' {
        Some(GelfLevel::Debug)
    } else {
        None
    }
}

impl GelfLevel {
    /// The numeric code of the level.
    pub open spec fn code(self) -> nat {
        match self {
            GelfLevel::Emergency => 0,
            GelfLevel::Alert => 1,
            GelfLevel::Critical => 2,
            GelfLevel::Error => 3,
            GelfLevel::Warning => 4,
            GelfLevel::Notice => 5,
            GelfLevel::Informational => 6,
            GelfLevel::Debug => 7,
        }
    }

    /// The digit that writes the level's code.
    pub open spec fn digit(self) -> char {
        match self {
            GelfLevel::Emergency => '0',
            GelfLevel::Alert => '1',
            GelfLevel::Critical => '2',
            GelfLevel::Error => '3',
            GelfLevel::Warning => '4',
            GelfLevel::Notice => '5',
            GelfLevel::Informational => '6',
            GelfLevel::Debug => '7',
        }
    }

    /// The numeric code of the level.
    pub fn to_code(&self) -> (r: u8)
        ensures
            r as nat == self.code(),
    {
        match self {
            GelfLevel::Emergency => 0,
            GelfLevel::Alert => 1,
            GelfLevel::Critical => 2,
            GelfLevel::Error => 3,
            GelfLevel::Warning => 4,
            GelfLevel::Notice => 5,
            GelfLevel::Informational => 6,
            GelfLevel::Debug => 7,
        }
    }

    /// The level's code written as one digit.
    pub fn code_text(&self) -> (r: String)
        ensures
            r@ == seq![self.digit()],
            level_of_text(r@) == Some(*self),
    {
        proof {
            reveal_strlit("0");
            reveal_strlit("1");
            reveal_strlit("2");
            reveal_strlit("3");
            reveal_strlit("4");
            reveal_strlit("5");
            reveal_strlit("6");
            reveal_strlit("7");
        }
        let r = match self {
            GelfLevel::Emergency => String::from_str("0"),
            GelfLevel::Alert => String::from_str("1"),
            GelfLevel::Critical => String::from_str("2"),
            GelfLevel::Error => String::from_str("3"),
            GelfLevel::Warning => String::from_str("4"),
            GelfLevel::Notice => String::from_str("5"),
            GelfLevel::Informational => String::from_str("6"),
            GelfLevel::Debug => String::from_str("7"),
        };
        assert(r@ =~= seq![self.digit()]);
        r
    }

    /// Reads a level from its text: one digit from `0` to `7`, and nothing else.
    pub fn from_str(s: &str) -> (r: Result<GelfLevel, ValidationError>)
        ensures
            r is Ok <==> level_of_text(s@) is Some,
            r matches Ok(l) ==> level_of_text(s@) == Some(l),
            r matches Err(e) ==> e@ == ErrorView::InvalidValue("level"@),
    {
        if s.unicode_len() != 1 {
            return Err(ValidationError::InvalidValue(String::from_str("level")));
        }
        let c = s.get_char(0);
        if c == '0' {
            Ok(GelfLevel::Emergency)
        } else if c == '1' {
            Ok(GelfLevel::Alert)
        } else if c == '2' {
            Ok(GelfLevel::Critical)
        } else if c == '3' {
            Ok(GelfLevel::Error)
        } else if c == '4' {
            Ok(GelfLevel::Warning)
        } else if c == '5' {
            Ok(GelfLevel::Notice)
        } else if c == '6' {
            Ok(GelfLevel::Informational)
        } else if c == '7' {
            Ok(GelfLevel::Debug)
        } else {
            Err(ValidationError::InvalidValue(String::from_str("level")))
        }
    }
}

/// Why a message was refused.
#[derive(Debug, PartialEq)]
pub enum ValidationError {
    /// A mandatory field is absent.
    MissingField(String),
    /// A mandatory field holds a value of the wrong kind: the field, then the kind expected.
    TypeMismatch(String, String),
    /// A mandatory field has the right kind but a value outside its range.
    InvalidValue(String),
}

/// A `ValidationError` with its texts as character sequences.
pub enum ErrorView {
    MissingField(Seq<char>),
    TypeMismatch(Seq<char>, Seq<char>),
    InvalidValue(Seq<char>),
}

impl View for ValidationError {
    type V = ErrorView;

    open spec fn view(&self) -> ErrorView {
        match self {
            ValidationError::MissingField(n) => ErrorView::MissingField(n@),
            ValidationError::TypeMismatch(n, t) => ErrorView::TypeMismatch(n@, t@),
            ValidationError::InvalidValue(n) => ErrorView::InvalidValue(n@),
        }
    }
}

/// A result whose value and error are seen through their views.
pub open spec fn result_view<T: View>(r: Result<T, ValidationError>) -> Result<T::V, ErrorView> {
    match r {
        Ok(v) => Ok(v@),
        Err(e) => Err(e@),
    }
}

/// A mandatory field that must hold a JSON string.
pub open spec fn text_field(d: Seq<(Seq<char>, JsonValue)>, name: Seq<char>) -> Result<Seq<char>, ErrorView> {
    match lookup(d, name) {
        None => Err(ErrorView::MissingField(name)),
        Some(JsonValue::Str(s)) => Ok(s@),
        Some(_) => Err(ErrorView::TypeMismatch(name, "string"@)),
    }
}

/// A mandatory field that must hold a JSON number; its text is kept.
pub open spec fn number_field(d: Seq<(Seq<char>, JsonValue)>, name: Seq<char>) -> Result<Seq<char>, ErrorView> {
    match lookup(d, name) {
        None => Err(ErrorView::MissingField(name)),
        Some(JsonValue::Number(t)) => Ok(t@),
        Some(_) => Err(ErrorView::TypeMismatch(name, "number"@)),
    }
}

/// The level that a JSON value gives: a number or a string whose text is one digit from 0 to 7.
pub open spec fn level_of_value(v: JsonValue) -> Option<GelfLevel> {
    match v {
        JsonValue::Number(t) => level_of_text(t@),
        JsonValue::Str(s) => level_of_text(s@),
        _ => None,
    }
}

/// The mandatory `level` field.
pub open spec fn level_field(d: Seq<(Seq<char>, JsonValue)>) -> Result<GelfLevel, ErrorView> {
    match lookup(d, "level"@) {
        None => Err(ErrorView::MissingField("level"@)),
        Some(v) => match level_of_value(v) {
            Some(l) => Ok(l),
            None => Err(ErrorView::InvalidValue("level"@)),
        },
    }
}

/// Reads a mandatory text field.
fn text_of(members: &Vec<(String, JsonValue)>, name: &str) -> (r: Result<String, ValidationError>)
    requires
        keys_distinct(entries(members@)),
    ensures
        result_view(r) == text_field(entries(members@), name@),
{
    match find(members, name) {
        None => Err(ValidationError::MissingField(String::from_str(name))),
        Some(JsonValue::Str(s)) => Ok(s.clone()),
        Some(_) => Err(ValidationError::TypeMismatch(String::from_str(name), String::from_str("string"))),
    }
}

/// Reads a mandatory number field, as its text.
fn number_of(members: &Vec<(String, JsonValue)>, name: &str) -> (r: Result<String, ValidationError>)
    requires
        keys_distinct(entries(members@)),
    ensures
        result_view(r) == number_field(entries(members@), name@),
{
    match find(members, name) {
        None => Err(ValidationError::MissingField(String::from_str(name))),
        Some(JsonValue::Number(t)) => Ok(t.clone()),
        Some(_) => Err(ValidationError::TypeMismatch(String::from_str(name), String::from_str("number"))),
    }
}

/// Reads the mandatory `level` field.
fn level_of(members: &Vec<(String, JsonValue)>) -> (r: Result<GelfLevel, ValidationError>)
    requires
        keys_distinct(entries(members@)),
    ensures
        match r {
            Ok(l) => level_field(entries(members@)) == Ok::<GelfLevel, ErrorView>(l),
            Err(e) => level_field(entries(members@)) == Err::<GelfLevel, ErrorView>(e@),
        },
{
    match find(members, "level") {
        None => Err(ValidationError::MissingField(String::from_str("level"))),
        Some(JsonValue::Number(t)) => GelfLevel::from_str(t.as_str()),
        Some(JsonValue::Str(s)) => GelfLevel::from_str(s.as_str()),
        Some(_) => Err(ValidationError::InvalidValue(String::from_str("level"))),
    }
}

/// A name that starts with an underscore: a user metadata field.
pub open spec fn is_meta_key(k: Seq<char>) -> bool {
    k.len() > 0 && k[0] == '_'
}

/// One of the five names of the mandatory fields.
pub open spec fn is_mandatory_key(k: Seq<char>) -> bool {
    k == "host"@ || k == "level"@ || k == "short_message"@ || k == "timestamp"@ || k == "version"@
}

/// A name that is routed to the passthrough data.
pub open spec fn is_mechanism_key(k: Seq<char>) -> bool {
    !is_meta_key(k) && !is_mandatory_key(k)
}

/// The metadata fields of a document, in order, each with its leading underscore removed.
pub open spec fn meta_of(d: Seq<(Seq<char>, JsonValue)>) -> Seq<(Seq<char>, JsonValue)>
    decreases d.len(),
{
    if d.len() == 0 {
        Seq::empty()
    } else {
        let rest = meta_of(d.drop_last());
        if is_meta_key(d.last().0) {
            rest.push((d.last().0.drop_first(), d.last().1))
        } else {
            rest
        }
    }
}

/// The passthrough fields of a document, in order.
pub open spec fn mechanism_of(d: Seq<(Seq<char>, JsonValue)>) -> Seq<(Seq<char>, JsonValue)>
    decreases d.len(),
{
    if d.len() == 0 {
        Seq::empty()
    } else {
        let rest = mechanism_of(d.drop_last());
        if is_mechanism_key(d.last().0) {
            rest.push(d.last())
        } else {
            rest
        }
    }
}

/// Whether a name is one of the five mandatory ones.
fn mandatory_key(k: &String) -> (r: bool)
    ensures
        r == is_mandatory_key(k@),
{
    same_key(k, "host") || same_key(k, "level") || same_key(k, "short_message")
        || same_key(k, "timestamp") || same_key(k, "version")
}

/// Sorts the members of a document into metadata (names stripped of their underscore)
/// and passthrough data; the mandatory fields go to neither.
fn partition(members: Vec<(String, JsonValue)>) -> (r: (Vec<(String, JsonValue)>, Vec<(String, JsonValue)>))
    ensures
        entries(r.0@) == meta_of(entries(members@)),
        entries(r.1@) == mechanism_of(entries(members@)),
{
    let ghost d = entries(members@);
    let ghost n = members.len() as int;
    let mut rest = members;
    let mut meta: Vec<(String, JsonValue)> = Vec::new();
    let mut mechanism: Vec<(String, JsonValue)> = Vec::new();
    while rest.len() > 0
        invariant
            n == d.len(),
            0 <= n - rest.len() <= n,
            entries(rest@) == d.subrange(n - rest.len(), n),
            entries(meta@) == meta_of(d.subrange(0, n - rest.len())),
            entries(mechanism@) == mechanism_of(d.subrange(0, n - rest.len())),
        decreases rest.len(),
    {
        let ghost i = n - rest.len();
        let ghost rest0 = rest@;
        let (k, v) = rest.remove(0);
        proof {
            assert(d[i] == entries(rest0)[0]);
            assert(rest@ =~= rest0.subrange(1, rest0.len() as int));
            assert forall|j: int| 0 <= j < rest@.len() implies entries(rest@)[j] == d.subrange(i + 1, n)[j] by {
                assert(entries(rest0)[j + 1] == d.subrange(i, n)[j + 1]);
            }
            assert(entries(rest@) =~= d.subrange(i + 1, n));
            assert(d.subrange(0, i + 1).drop_last() =~= d.subrange(0, i));
            assert(d.subrange(0, i + 1).last() == (k@, v));
        }
        let len = k.as_str().unicode_len();
        if len > 0 && k.as_str().get_char(0) == '_' {
            let stripped = String::from_str(k.as_str().substring_char(1, len));
            meta.push((stripped, v));
            proof {
                assert(entries(meta@) =~= meta_of(d.subrange(0, i + 1)));
            }
        } else if !mandatory_key(&k) {
            mechanism.push((k, v));
            proof {
                assert(entries(mechanism@) =~= mechanism_of(d.subrange(0, i + 1)));
            }
        }
    }
    proof {
        assert(d.subrange(0, n) =~= d);
    }
    (meta, mechanism)
}

/// Every member of the metadata stems from a member of the document whose name begins
/// with an underscore.
pub proof fn lemma_meta_origin(d: Seq<(Seq<char>, JsonValue)>)
    ensures
        forall|j: int| 0 <= j < meta_of(d).len() ==> exists|i: int| 0 <= i < d.len()
            && is_meta_key(d[i].0) && #[trigger] meta_of(d)[j] == (d[i].0.drop_first(), d[i].1),
    decreases d.len(),
{
    if d.len() > 0 {
        let p = d.drop_last();
        lemma_meta_origin(p);
        assert forall|j: int| 0 <= j < meta_of(d).len() implies exists|i: int| 0 <= i < d.len()
            && is_meta_key(d[i].0) && #[trigger] meta_of(d)[j] == (d[i].0.drop_first(), d[i].1) by {
            if j < meta_of(p).len() {
                let i = choose|i: int| 0 <= i < p.len() && is_meta_key(p[i].0) && meta_of(p)[j] == (p[i].0.drop_first(), p[i].1);
                assert(d[i] == p[i]);
            } else {
                assert(d[d.len() - 1] == d.last());
            }
        }
    } else {
        assert(meta_of(d).len() == 0);
    }
}

/// Every member of the passthrough data is a member of the document with a passthrough name.
pub proof fn lemma_mechanism_origin(d: Seq<(Seq<char>, JsonValue)>)
    ensures
        forall|j: int| 0 <= j < mechanism_of(d).len() ==> exists|i: int| 0 <= i < d.len()
            && is_mechanism_key(d[i].0) && #[trigger] mechanism_of(d)[j] == d[i],
    decreases d.len(),
{
    if d.len() > 0 {
        let p = d.drop_last();
        lemma_mechanism_origin(p);
        assert forall|j: int| 0 <= j < mechanism_of(d).len() implies exists|i: int| 0 <= i < d.len()
            && is_mechanism_key(d[i].0) && #[trigger] mechanism_of(d)[j] == d[i] by {
            if j < mechanism_of(p).len() {
                let i = choose|i: int| 0 <= i < p.len() && is_mechanism_key(p[i].0) && mechanism_of(p)[j] == p[i];
                assert(d[i] == p[i]);
            } else {
                assert(d[d.len() - 1] == d.last());
            }
        }
    } else {
        assert(mechanism_of(d).len() == 0);
    }
}

/// Two names that begin with an underscore and agree after it are the same name.
proof fn lemma_strip_injective(a: Seq<char>, b: Seq<char>)
    requires
        is_meta_key(a),
        is_meta_key(b),
        a.drop_first() == b.drop_first(),
    ensures
        a == b,
{
    assert(a =~= seq![a[0]] + a.drop_first());
    assert(b =~= seq![b[0]] + b.drop_first());
}

/// Distinct names in the document give distinct names in the metadata and in the passthrough data.
pub proof fn lemma_partition_distinct(d: Seq<(Seq<char>, JsonValue)>)
    requires
        keys_distinct(d),
    ensures
        keys_distinct(meta_of(d)),
        keys_distinct(mechanism_of(d)),
    decreases d.len(),
{
    if d.len() > 0 {
        let p = d.drop_last();
        let n = d.len() - 1;
        assert forall|a: int, b: int| 0 <= a < p.len() && 0 <= b < p.len() && a != b implies p[a].0 != p[b].0 by {
            assert(p[a] == d[a] && p[b] == d[b]);
        }
        lemma_partition_distinct(p);
        lemma_meta_origin(p);
        lemma_mechanism_origin(p);
        let m = meta_of(d);
        let mp = meta_of(p);
        if is_meta_key(d.last().0) {
            assert forall|a: int, b: int| 0 <= a < m.len() && 0 <= b < m.len() && a != b implies m[a].0 != m[b].0 by {
                if a == mp.len() || b == mp.len() {
                    let o = if a == mp.len() { b } else { a };
                    let i = choose|i: int| 0 <= i < p.len() && is_meta_key(p[i].0) && mp[o] == (p[i].0.drop_first(), p[i].1);
                    assert(p[i] == d[i]);
                    assert(d[n] == d.last());
                    if m[a].0 == m[b].0 {
                        lemma_strip_injective(d[i].0, d[n].0);
                    }
                }
            }
        }
        let k = mechanism_of(d);
        let kp = mechanism_of(p);
        if is_mechanism_key(d.last().0) {
            assert forall|a: int, b: int| 0 <= a < k.len() && 0 <= b < k.len() && a != b implies k[a].0 != k[b].0 by {
                if a == kp.len() || b == kp.len() {
                    let o = if a == kp.len() { b } else { a };
                    let i = choose|i: int| 0 <= i < p.len() && is_mechanism_key(p[i].0) && kp[o] == p[i];
                    assert(p[i] == d[i]);
                    assert(d[n] == d.last());
                }
            }
        }
    }
}

/// A member whose name begins with an underscore is in the metadata, stripped of it.
pub proof fn lemma_meta_member(d: Seq<(Seq<char>, JsonValue)>, i: int)
    requires
        0 <= i < d.len(),
        is_meta_key(d[i].0),
    ensures
        meta_of(d).contains((d[i].0.drop_first(), d[i].1)),
    decreases d.len(),
{
    let p = d.drop_last();
    if i == d.len() - 1 {
        assert(meta_of(d).last() == (d[i].0.drop_first(), d[i].1));
    } else {
        assert(p[i] == d[i]);
        lemma_meta_member(p, i);
        let j = choose|j: int| 0 <= j < meta_of(p).len() && meta_of(p)[j] == (p[i].0.drop_first(), p[i].1);
        assert(meta_of(d)[j] == meta_of(p)[j]);
    }
}

/// A member with a passthrough name is in the passthrough data.
pub proof fn lemma_mechanism_member(d: Seq<(Seq<char>, JsonValue)>, i: int)
    requires
        0 <= i < d.len(),
        is_mechanism_key(d[i].0),
    ensures
        mechanism_of(d).contains(d[i]),
    decreases d.len(),
{
    let p = d.drop_last();
    if i == d.len() - 1 {
        assert(mechanism_of(d).last() == d[i]);
    } else {
        assert(p[i] == d[i]);
        lemma_mechanism_member(p, i);
        let j = choose|j: int| 0 <= j < mechanism_of(p).len() && mechanism_of(p)[j] == p[i];
        assert(mechanism_of(d)[j] == mechanism_of(p)[j]);
    }
}

/// A validated GELF message.
#[derive(Debug, PartialEq)]
pub struct GelfData {
    pub host: String,
    pub level: GelfLevel,
    pub short_message: String,
    /// The JSON text of the timestamp, in seconds since the epoch.
    pub timestamp: String,
    pub version: String,
    /// The fields whose names began with an underscore, under the names without it.
    pub meta: Vec<(String, JsonValue)>,
    /// The fields that are neither mandatory nor metadata.
    pub mechanism_data: Vec<(String, JsonValue)>,
}

/// A `GelfData` with its texts as character sequences.
pub struct GelfView {
    pub host: Seq<char>,
    pub level: GelfLevel,
    pub short_message: Seq<char>,
    pub timestamp: Seq<char>,
    pub version: Seq<char>,
    pub meta: Seq<(Seq<char>, JsonValue)>,
    pub mechanism_data: Seq<(Seq<char>, JsonValue)>,
}

impl View for GelfData {
    type V = GelfView;

    open spec fn view(&self) -> GelfView {
        GelfView {
            host: self.host@,
            level: self.level,
            short_message: self.short_message@,
            timestamp: self.timestamp@,
            version: self.version@,
            meta: entries(self.meta@),
            mechanism_data: entries(self.mechanism_data@),
        }
    }
}

/// What every classified message satisfies: distinct names in its metadata and in its
/// passthrough data, and only passthrough names in the latter.
pub open spec fn well_formed(g: GelfView) -> bool {
    &&& keys_distinct(g.meta)
    &&& keys_distinct(g.mechanism_data)
    &&& forall|j: int| 0 <= j < g.mechanism_data.len() ==> is_mechanism_key(#[trigger] g.mechanism_data[j].0)
}

/// The first five members of the canonical form of `g`: the mandatory fields, with the
/// level written as its digit.
pub open spec fn canonical_head(c: Seq<(Seq<char>, JsonValue)>, g: GelfView) -> bool {
    &&& c.len() >= 5
    &&& c[0].0 == "host"@ && c[0].1 is Str && c[0].1->Str_0@ == g.host
    &&& c[1].0 == "level"@ && c[1].1 is Number && c[1].1->Number_0@ == seq![g.level.digit()]
    &&& c[2].0 == "short_message"@ && c[2].1 is Str && c[2].1->Str_0@ == g.short_message
    &&& c[3].0 == "timestamp"@ && c[3].1 is Number && c[3].1->Number_0@ == g.timestamp
    &&& c[4].0 == "version"@ && c[4].1 is Str && c[4].1->Str_0@ == g.version
}

/// `c` is the canonical form of `g`: the mandatory fields, then each metadata field with
/// its underscore put back, then the passthrough fields, all at the top level.
pub open spec fn is_canonical_of(c: Seq<(Seq<char>, JsonValue)>, g: GelfView) -> bool {
    &&& c.len() == 5 + g.meta.len() + g.mechanism_data.len()
    &&& canonical_head(c, g)
    &&& forall|j: int| 0 <= j < g.meta.len() ==> c[5 + j] == (seq!['_'] + g.meta[j].0, g.meta[j].1)
    &&& forall|j: int| 0 <= j < g.mechanism_data.len() ==> c[5 + g.meta.len() + j] == g.mechanism_data[j]
}

/// What classifying a document gives: the first mandatory field that fails, in the
/// order host, level, short_message, timestamp, version, or the record.
pub open spec fn gelf_of(d: Seq<(Seq<char>, JsonValue)>) -> Result<GelfView, ErrorView> {
    let host = text_field(d, "host"@);
    let level = level_field(d);
    let short_message = text_field(d, "short_message"@);
    let timestamp = number_field(d, "timestamp"@);
    let version = text_field(d, "version"@);
    if host is Err {
        Err(host->Err_0)
    } else if level is Err {
        Err(level->Err_0)
    } else if short_message is Err {
        Err(short_message->Err_0)
    } else if timestamp is Err {
        Err(timestamp->Err_0)
    } else if version is Err {
        Err(version->Err_0)
    } else {
        Ok(
            GelfView {
                host: host->Ok_0,
                level: level->Ok_0,
                short_message: short_message->Ok_0,
                timestamp: timestamp->Ok_0,
                version: version->Ok_0,
                meta: meta_of(d),
                mechanism_data: mechanism_of(d),
            },
        )
    }
}

/// Validates a document and sorts its fields.
pub fn to_gelf(data: Vec<(String, JsonValue)>) -> (r: Result<GelfData, ValidationError>)
    requires
        keys_distinct(entries(data@)),
    ensures
        result_view(r) == gelf_of(entries(data@)),
        r matches Ok(g) ==> well_formed(g@),
{
    proof {
        let d = entries(data@);
        lemma_partition_distinct(d);
        lemma_mechanism_origin(d);
    }
    let host = match text_of(&data, "host") {
        Ok(h) => h,
        Err(e) => return Err(e),
    };
    let level = match level_of(&data) {
        Ok(l) => l,
        Err(e) => return Err(e),
    };
    let short_message = match text_of(&data, "short_message") {
        Ok(m) => m,
        Err(e) => return Err(e),
    };
    let timestamp = match number_of(&data, "timestamp") {
        Ok(t) => t,
        Err(e) => return Err(e),
    };
    let version = match text_of(&data, "version") {
        Ok(v) => v,
        Err(e) => return Err(e),
    };
    let (meta, mechanism_data) = partition(data);
    Ok(GelfData { host, level, short_message, timestamp, version, meta, mechanism_data })
}

impl GelfData {
    /// The canonical form of the message: one flat object with the mandatory fields, each
    /// metadata field under its name with the underscore put back, and the passthrough fields.
    pub fn into_canonical(self) -> (r: Vec<(String, JsonValue)>)
        ensures
            is_canonical_of(entries(r@), self@),
    {
        let ghost g = self@;
        let GelfData { host, level, short_message, timestamp, version, meta, mechanism_data } = self;
        let mut out: Vec<(String, JsonValue)> = Vec::new();
        out.push((String::from_str("host"), JsonValue::Str(host)));
        out.push((String::from_str("level"), JsonValue::Number(level.code_text())));
        out.push((String::from_str("short_message"), JsonValue::Str(short_message)));
        out.push((String::from_str("timestamp"), JsonValue::Number(timestamp)));
        out.push((String::from_str("version"), JsonValue::Str(version)));
        let ghost m = g.meta.len();
        let mut rest = meta;
        while rest.len() > 0
            invariant
                m == g.meta.len(),
                0 <= m - rest.len() <= m,
                out.len() == 5 + (m - rest.len()),
                entries(rest@) == g.meta.subrange(m - rest.len(), m as int),
                canonical_head(entries(out@), g),
                forall|j: int| 0 <= j < m - rest.len() ==> entries(out@)[5 + j] == (seq!['_'] + g.meta[j].0, g.meta[j].1),
            decreases rest.len(),
        {
            let ghost i = m - rest.len();
            let ghost rest0 = rest@;
            let (k, v) = rest.remove(0);
            proof {
                assert(g.meta[i] == entries(rest0)[0]);
                assert(rest@ =~= rest0.subrange(1, rest0.len() as int));
                assert forall|j: int| 0 <= j < rest@.len() implies entries(rest@)[j] == g.meta.subrange(i + 1, m as int)[j] by {
                    assert(entries(rest0)[j + 1] == g.meta.subrange(i, m as int)[j + 1]);
                }
                assert(entries(rest@) =~= g.meta.subrange(i + 1, m as int));
            }
            let key = String::from_str("_").concat(k.as_str());
            let ghost out0 = out@;
            out.push((key, v));
            proof {
                reveal_strlit("_");
                assert("_"@ =~= seq!['_']);
                assert(entries(out@)[5 + i] == (seq!['_'] + g.meta[i].0, g.meta[i].1));
                assert forall|j: int| 0 <= j < i implies #[trigger] entries(out@)[5 + j] == entries(out0)[5 + j] by {
                    assert(out@[5 + j] == out0[5 + j]);
                }
            }
        }
        let ghost n = g.mechanism_data.len();
        let mut rest = mechanism_data;
        while rest.len() > 0
            invariant
                m == g.meta.len(),
                n == g.mechanism_data.len(),
                0 <= n - rest.len() <= n,
                out.len() == 5 + m + (n - rest.len()),
                entries(rest@) == g.mechanism_data.subrange(n - rest.len(), n as int),
                canonical_head(entries(out@), g),
                forall|j: int| 0 <= j < m ==> entries(out@)[5 + j] == (seq!['_'] + g.meta[j].0, g.meta[j].1),
                forall|j: int| 0 <= j < n - rest.len() ==> entries(out@)[5 + m + j] == g.mechanism_data[j],
            decreases rest.len(),
        {
            let ghost i = n - rest.len();
            let ghost rest0 = rest@;
            let (k, v) = rest.remove(0);
            proof {
                assert(g.mechanism_data[i] == entries(rest0)[0]);
                assert(rest@ =~= rest0.subrange(1, rest0.len() as int));
                assert forall|j: int| 0 <= j < rest@.len() implies entries(rest@)[j] == g.mechanism_data.subrange(i + 1, n as int)[j] by {
                    assert(entries(rest0)[j + 1] == g.mechanism_data.subrange(i, n as int)[j + 1]);
                }
                assert(entries(rest@) =~= g.mechanism_data.subrange(i + 1, n as int));
            }
            out.push((k, v));
        }
        out
    }
}

/// Why bytes could not be read as a GELF message.
#[derive(Debug, PartialEq)]
pub enum ParseError {
    /// The input is not a JSON object with distinct member names.
    Decode(String),
    /// The object is not a valid GELF message.
    Validation(ValidationError),
}

/// A JSON object whose member names are distinct: a document that can be classified.
pub open spec fn is_document(v: JsonValue) -> bool {
    v is Object && keys_distinct(entries(v->Object_0@))
}

/// A classified message, as handed back to the one who submitted it.
#[derive(Debug)]
pub struct GelfDataWrapper {
    pub data: GelfData,
}

impl GelfDataWrapper {
    /// Classifies a decoded JSON value.
    pub fn from_value(v: JsonValue) -> (r: Result<GelfDataWrapper, ParseError>)
        ensures
            r matches Err(ParseError::Decode(_)) <==> !is_document(v),
            r matches Ok(w) ==> is_document(v) && gelf_of(entries(v->Object_0@)) == Ok::<GelfView, ErrorView>(w.data@),
            r matches Err(ParseError::Validation(e)) ==> gelf_of(entries(v->Object_0@)) == Err::<GelfView, ErrorView>(e@),
    {
        match v {
            JsonValue::Object(members) => {
                if !distinct_keys(&members) {
                    return Err(ParseError::Decode(String::from_str("a member name occurs twice")));
                }
                match to_gelf(members) {
                    Ok(data) => Ok(GelfDataWrapper { data }),
                    Err(e) => Err(ParseError::Validation(e)),
                }
            },
            _ => Err(ParseError::Decode(String::from_str("expected a JSON object"))),
        }
    }

    /// The message held.
    pub fn into_gelf(self) -> (r: GelfData)
        ensures
            r == self.data,
    {
        self.data
    }
}

/// A message for the pool: the raw bytes of one GELF message.
pub struct GelfMessage(pub Vec<u8>);

/// A document that holds the five mandatory fields with values of the right kinds and a
/// level from 0 to 7 is accepted, and the record holds those values unchanged.
pub proof fn law_valid_message_accepted(d: Seq<(Seq<char>, JsonValue)>)
    requires
        keys_distinct(d),
        lookup(d, "host"@) matches Some(JsonValue::Str(_)),
        lookup(d, "level"@) matches Some(v) && level_of_value(v) is Some,
        lookup(d, "short_message"@) matches Some(JsonValue::Str(_)),
        lookup(d, "timestamp"@) matches Some(JsonValue::Number(_)),
        lookup(d, "version"@) matches Some(JsonValue::Str(_)),
    ensures
        gelf_of(d) matches Ok(g) && {
            &&& g.host == lookup(d, "host"@)->Some_0->Str_0@
            &&& Some(g.level) == level_of_value(lookup(d, "level"@)->Some_0)
            &&& g.short_message == lookup(d, "short_message"@)->Some_0->Str_0@
            &&& g.timestamp == lookup(d, "timestamp"@)->Some_0->Number_0@
            &&& g.version == lookup(d, "version"@)->Some_0->Str_0@
        },
{
}

/// Every member whose name begins with an underscore is in the metadata under the name
/// without it, with the same value, and its name is not in the passthrough data.
pub proof fn law_meta_routing(d: Seq<(Seq<char>, JsonValue)>, i: int)
    requires
        keys_distinct(d),
        0 <= i < d.len(),
        is_meta_key(d[i].0),
    ensures
        lookup(meta_of(d), d[i].0.drop_first()) == Some(d[i].1),
        !has_key(mechanism_of(d), d[i].0),
        gelf_of(d) matches Ok(g) ==> lookup(g.meta, d[i].0.drop_first()) == Some(d[i].1)
            && !has_key(g.mechanism_data, d[i].0),
{
    lemma_partition_distinct(d);
    lemma_meta_member(d, i);
    let m = meta_of(d);
    let j = choose|j: int| 0 <= j < m.len() && m[j] == (d[i].0.drop_first(), d[i].1);
    lemma_lookup_at(m, j);
    lemma_mechanism_origin(d);
    if has_key(mechanism_of(d), d[i].0) {
        let k = choose|k: int| 0 <= k < mechanism_of(d).len() && mechanism_of(d)[k].0 == d[i].0;
        let o = choose|o: int| 0 <= o < d.len() && is_mechanism_key(d[o].0) && mechanism_of(d)[k] == d[o];
    }
}

/// Every member whose name neither begins with an underscore nor is a mandatory name is
/// in the passthrough data with the same value.
pub proof fn law_mechanism_routing(d: Seq<(Seq<char>, JsonValue)>, i: int)
    requires
        keys_distinct(d),
        0 <= i < d.len(),
        is_mechanism_key(d[i].0),
    ensures
        lookup(mechanism_of(d), d[i].0) == Some(d[i].1),
        gelf_of(d) matches Ok(g) ==> lookup(g.mechanism_data, d[i].0) == Some(d[i].1),
{
    lemma_partition_distinct(d);
    lemma_mechanism_member(d, i);
    let m = mechanism_of(d);
    let j = choose|j: int| 0 <= j < m.len() && m[j] == d[i];
    lemma_lookup_at(m, j);
}

/// Sorting a concatenation sorts each part.
proof fn lemma_partition_append(a: Seq<(Seq<char>, JsonValue)>, b: Seq<(Seq<char>, JsonValue)>)
    ensures
        meta_of(a + b) == meta_of(a) + meta_of(b),
        mechanism_of(a + b) == mechanism_of(a) + mechanism_of(b),
    decreases b.len(),
{
    if b.len() == 0 {
        assert(a + b =~= a);
        assert(meta_of(a) + meta_of(b) =~= meta_of(a));
        assert(mechanism_of(a) + mechanism_of(b) =~= mechanism_of(a));
    } else {
        lemma_partition_append(a, b.drop_last());
        assert((a + b).drop_last() =~= a + b.drop_last());
        assert((a + b).last() == b.last());
        assert(meta_of(a + b) =~= meta_of(a) + meta_of(b));
        assert(mechanism_of(a + b) =~= mechanism_of(a) + mechanism_of(b));
    }
}

/// Members whose names are all mandatory go to neither part.
proof fn lemma_partition_mandatory(d: Seq<(Seq<char>, JsonValue)>)
    requires
        forall|i: int| 0 <= i < d.len() ==> !is_meta_key(#[trigger] d[i].0) && is_mandatory_key(d[i].0),
    ensures
        meta_of(d) == Seq::<(Seq<char>, JsonValue)>::empty(),
        mechanism_of(d) == Seq::<(Seq<char>, JsonValue)>::empty(),
    decreases d.len(),
{
    if d.len() > 0 {
        let p = d.drop_last();
        assert forall|i: int| 0 <= i < p.len() implies !is_meta_key(#[trigger] p[i].0) && is_mandatory_key(p[i].0) by {
            assert(p[i] == d[i]);
        }
        lemma_partition_mandatory(p);
        assert(d.last() == d[d.len() - 1]);
    }
}

/// Members whose names carry an added underscore give back the metadata they were made from.
proof fn lemma_partition_prefixed(d: Seq<(Seq<char>, JsonValue)>, m: Seq<(Seq<char>, JsonValue)>)
    requires
        d.len() == m.len(),
        forall|j: int| 0 <= j < m.len() ==> #[trigger] d[j] == (seq!['_'] + m[j].0, m[j].1),
    ensures
        meta_of(d) == m,
        mechanism_of(d) == Seq::<(Seq<char>, JsonValue)>::empty(),
    decreases d.len(),
{
    if d.len() > 0 {
        let p = d.drop_last();
        let q = m.drop_last();
        assert forall|j: int| 0 <= j < q.len() implies #[trigger] p[j] == (seq!['_'] + q[j].0, q[j].1) by {
            assert(p[j] == d[j]);
            assert(q[j] == m[j]);
        }
        lemma_partition_prefixed(p, q);
        let n = d.len() - 1;
        assert(d.last() == d[n]);
        assert(d[n].0.drop_first() =~= m[n].0);
        assert(meta_of(d) =~= m);
    }
}

/// Members whose names are all passthrough names are the passthrough data, unchanged.
proof fn lemma_partition_mechanism(d: Seq<(Seq<char>, JsonValue)>)
    requires
        forall|i: int| 0 <= i < d.len() ==> is_mechanism_key(#[trigger] d[i].0),
    ensures
        meta_of(d) == Seq::<(Seq<char>, JsonValue)>::empty(),
        mechanism_of(d) == d,
    decreases d.len(),
{
    if d.len() > 0 {
        let p = d.drop_last();
        assert forall|i: int| 0 <= i < p.len() implies is_mechanism_key(#[trigger] p[i].0) by {
            assert(p[i] == d[i]);
        }
        lemma_partition_mechanism(p);
        assert(d.last() == d[d.len() - 1]);
        assert(p.push(d.last()) =~= d);
    }
}

/// The names in the canonical form of a well-formed message are distinct.
pub proof fn lemma_canonical_distinct(c: Seq<(Seq<char>, JsonValue)>, g: GelfView)
    requires
        well_formed(g),
        is_canonical_of(c, g),
    ensures
        keys_distinct(c),
{
    reveal_strlit("host");
    reveal_strlit("level");
    reveal_strlit("short_message");
    reveal_strlit("timestamp");
    reveal_strlit("version");
    let m = g.meta.len();
    assert forall|a: int, b: int| 0 <= a < c.len() && 0 <= b < c.len() && a != b implies c[a].0 != c[b].0 by {
        if a < 5 && b < 5 {
            assert(c[a].0.len() != c[b].0.len() || c[a].0[0] != c[b].0[0] || c[a].0[1] != c[b].0[1]);
        } else if a < 5 || b < 5 {
            let (x, y) = if a < 5 { (a, b) } else { (b, a) };
            assert(c[x].0[0] != '_');
            assert(is_mandatory_key(c[x].0));
            if y < 5 + m {
                assert(c[y] == (seq!['_'] + g.meta[y - 5].0, g.meta[y - 5].1));
                assert(c[y].0[0] == '_');
            } else {
                assert(c[y] == g.mechanism_data[y - 5 - m]);
                assert(is_mechanism_key(g.mechanism_data[y - 5 - m].0));
            }
        } else if a < 5 + m && b < 5 + m {
            assert(c[a] == (seq!['_'] + g.meta[a - 5].0, g.meta[a - 5].1));
            assert(c[b] == (seq!['_'] + g.meta[b - 5].0, g.meta[b - 5].1));
            if c[a].0 == c[b].0 {
                assert(c[a].0.drop_first() =~= g.meta[a - 5].0);
                assert(c[b].0.drop_first() =~= g.meta[b - 5].0);
            }
        } else if a < 5 + m || b < 5 + m {
            let (x, y) = if a < 5 + m { (a, b) } else { (b, a) };
            assert(c[x] == (seq!['_'] + g.meta[x - 5].0, g.meta[x - 5].1));
            assert(c[x].0[0] == '_');
            assert(c[y] == g.mechanism_data[y - 5 - m]);
            assert(is_mechanism_key(g.mechanism_data[y - 5 - m].0));
        } else {
            assert(c[a] == g.mechanism_data[a - 5 - m]);
            assert(c[b] == g.mechanism_data[b - 5 - m]);
        }
    }
}

/// Classifying the canonical form of a well-formed message gives the message back:
/// the same mandatory fields, metadata and passthrough data.
pub proof fn law_round_trip(c: Seq<(Seq<char>, JsonValue)>, g: GelfView)
    requires
        well_formed(g),
        is_canonical_of(c, g),
    ensures
        keys_distinct(c),
        gelf_of(c) == Ok::<GelfView, ErrorView>(g),
{
    lemma_canonical_distinct(c, g);
    reveal_strlit("host");
    reveal_strlit("level");
    reveal_strlit("short_message");
    reveal_strlit("timestamp");
    reveal_strlit("version");
    let m = g.meta.len() as int;
    let n = c.len() as int;
    lemma_lookup_at(c, 0);
    lemma_lookup_at(c, 1);
    lemma_lookup_at(c, 2);
    lemma_lookup_at(c, 3);
    lemma_lookup_at(c, 4);
    let head = c.subrange(0, 5);
    let mid = c.subrange(5, 5 + m);
    let tail = c.subrange(5 + m, n);
    assert(c =~= head + mid + tail);
    lemma_partition_append(head + mid, tail);
    lemma_partition_append(head, mid);
    assert forall|i: int| 0 <= i < head.len() implies !is_meta_key(#[trigger] head[i].0) && is_mandatory_key(head[i].0) by {
        assert(head[i] == c[i]);
    }
    lemma_partition_mandatory(head);
    assert forall|j: int| 0 <= j < g.meta.len() implies #[trigger] mid[j] == (seq!['_'] + g.meta[j].0, g.meta[j].1) by {
        assert(mid[j] == c[5 + j]);
    }
    lemma_partition_prefixed(mid, g.meta);
    assert(tail =~= g.mechanism_data) by {
        assert forall|j: int| 0 <= j < tail.len() implies tail[j] == g.mechanism_data[j] by {
            assert(tail[j] == c[5 + m + j]);
        }
    }
    assert forall|i: int| 0 <= i < tail.len() implies is_mechanism_key(#[trigger] tail[i].0) by {
        assert(tail[i].0 == g.mechanism_data[i].0);
    }
    lemma_partition_mechanism(tail);
    assert(meta_of(c) =~= g.meta);
    assert(mechanism_of(c) =~= g.mechanism_data);
    assert(level_of_text(seq![g.level.digit()]) == Some(g.level));
}

} // verus!
