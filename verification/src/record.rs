use crate::decode::flags::Flags;
use crate::decode::int_or_infinite::IntOrInfinite;
use crate::decode::not_used::NotUsed;
use crate::decode::unit::{Unit, UnitView};
use crate::decode::vec_or_map::VecOrMap;
use crate::decode::{agrees, Decode};
use crate::error::{
    texts_view, DecodeError, DecodeErrorView, FormatError, FormatErrorView, SchemaViolation,
    SchemaViolationView,
};
use crate::table::{distinct_names, position_of, put, slot_of, Table};
use crate::text::{chars_of, parse_unsigned, unsigned_parsed};
use crate::value::{entries_view, kind_of, JsonValue, RawValue};
use vstd::prelude::*;

verus! {

/// The decoders that a field of a record may declare.
#[derive(Debug, Clone, Copy, PartialEq, Eq, Structural)]
pub enum ElementDecoder {
    /// A string.
    Text,
    /// A number, kept as its literal.
    Number,
    /// An unsigned integer that a `usize` can hold.
    Size,
    /// An unsigned integer below 256.
    Byte,
    /// `true` or `false`.
    Bool,
    /// An amount with its unit.
    Unit,
    /// A list of flags, or an empty map.
    Flags,
    /// A count or the word for no limit.
    Limit,
    /// Anything: the value is walked and dropped.
    NotUsed,
}

/// What a field holds once it is decoded.
#[derive(Debug)]
pub enum FieldValue {
    Text(String),
    Number(String),
    Size(usize),
    Byte(u8),
    Bool(bool),
    Unit(Unit),
    Flags(VecOrMap<Flags>),
    Limit(IntOrInfinite),
    NotUsed,
}

/// The mathematical content of a [`FieldValue`].
pub enum FieldValueView {
    Text(Seq<char>),
    Number(Seq<char>),
    Size(usize),
    Byte(u8),
    Bool(bool),
    Unit(UnitView),
    Flags(Seq<Flags>),
    Limit(IntOrInfinite),
    NotUsed,
}

impl View for FieldValue {
    type V = FieldValueView;

    open spec fn view(&self) -> FieldValueView {
        match self {
            FieldValue::Text(t) => FieldValueView::Text(t@),
            FieldValue::Number(n) => FieldValueView::Number(n@),
            FieldValue::Size(n) => FieldValueView::Size(*n),
            FieldValue::Byte(n) => FieldValueView::Byte(*n),
            FieldValue::Bool(b) => FieldValueView::Bool(*b),
            FieldValue::Unit(u) => FieldValueView::Unit(u@),
            FieldValue::Flags(f) => FieldValueView::Flags(f@),
            FieldValue::Limit(l) => FieldValueView::Limit(*l),
            FieldValue::NotUsed => FieldValueView::NotUsed,
        }
    }
}

/// Whether a decoded value is of the form that `decoder` gives.
pub open spec fn is_of(value: FieldValueView, decoder: ElementDecoder) -> bool {
    match decoder {
        ElementDecoder::Text => value is Text,
        ElementDecoder::Number => value is Number,
        ElementDecoder::Size => value is Size,
        ElementDecoder::Byte => value is Byte,
        ElementDecoder::Bool => value is Bool,
        ElementDecoder::Unit => value is Unit,
        ElementDecoder::Flags => value is Flags,
        ElementDecoder::Limit => value is Limit,
        ElementDecoder::NotUsed => value is NotUsed,
    }
}

/// The error for a value of a kind that a decoder does not take.
pub open spec fn wrong_kind(value: JsonValue) -> DecodeErrorView {
    DecodeErrorView::Format(FormatErrorView::UnexpectedKind(kind_of(value)))
}

/// What `decoder` makes of `value`.
pub open spec fn element_decoded(decoder: ElementDecoder, value: JsonValue) -> Result<
    FieldValueView,
    DecodeErrorView,
> {
    match decoder {
        ElementDecoder::Text => match value {
            JsonValue::String(t) => Ok(FieldValueView::Text(t)),
            other => Err(wrong_kind(other)),
        },
        ElementDecoder::Number => match value {
            JsonValue::Number(n) => Ok(FieldValueView::Number(n)),
            other => Err(wrong_kind(other)),
        },
        ElementDecoder::Size => match value {
            JsonValue::Number(n) => match unsigned_parsed(n, usize::MAX as nat) {
                Some(v) => Ok(FieldValueView::Size(v as usize)),
                None => Err(DecodeErrorView::Format(FormatErrorView::InvalidInteger(n))),
            },
            other => Err(wrong_kind(other)),
        },
        ElementDecoder::Byte => match value {
            JsonValue::Number(n) => match unsigned_parsed(n, 255) {
                Some(v) => Ok(FieldValueView::Byte(v as u8)),
                None => Err(DecodeErrorView::Format(FormatErrorView::InvalidInteger(n))),
            },
            other => Err(wrong_kind(other)),
        },
        ElementDecoder::Bool => match value {
            JsonValue::Bool(b) => Ok(FieldValueView::Bool(b)),
            other => Err(wrong_kind(other)),
        },
        ElementDecoder::Unit => match Unit::decoded(value) {
            Ok(u) => Ok(FieldValueView::Unit(u)),
            Err(e) => Err(e),
        },
        ElementDecoder::Flags => match VecOrMap::<Flags>::decoded(value) {
            Ok(f) => Ok(FieldValueView::Flags(f)),
            Err(e) => Err(e),
        },
        ElementDecoder::Limit => match IntOrInfinite::decoded(value) {
            Ok(l) => Ok(FieldValueView::Limit(l)),
            Err(e) => Err(e),
        },
        ElementDecoder::NotUsed => Ok(FieldValueView::NotUsed),
    }
}

impl ElementDecoder {
    /// Decodes `value` as this decoder says.
    pub fn apply(self, value: &RawValue) -> (got: Result<FieldValue, DecodeError>)
        ensures
            agrees(got, element_decoded(self, value@)),
            got matches Ok(v) ==> is_of(v@, self),
    {
        match self {
            ElementDecoder::Text => match value {
                RawValue::String(t) => Ok(FieldValue::Text(t.clone())),
                other => Err(DecodeError::Format(FormatError::UnexpectedKind(other.kind()))),
            },
            ElementDecoder::Number => match value {
                RawValue::Number(n) => Ok(FieldValue::Number(n.clone())),
                other => Err(DecodeError::Format(FormatError::UnexpectedKind(other.kind()))),
            },
            ElementDecoder::Size => match value {
                RawValue::Number(n) => {
                    let chars = chars_of(n.as_str());
                    assert(chars@.skip(0) =~= chars@);
                    match parse_unsigned(&chars, 0, usize::MAX as u64) {
                        Some(v) => Ok(FieldValue::Size(v as usize)),
                        None => Err(DecodeError::Format(FormatError::InvalidInteger(n.clone()))),
                    }
                },
                other => Err(DecodeError::Format(FormatError::UnexpectedKind(other.kind()))),
            },
            ElementDecoder::Byte => match value {
                RawValue::Number(n) => {
                    let chars = chars_of(n.as_str());
                    assert(chars@.skip(0) =~= chars@);
                    match parse_unsigned(&chars, 0, 255) {
                        Some(v) => Ok(FieldValue::Byte(v as u8)),
                        None => Err(DecodeError::Format(FormatError::InvalidInteger(n.clone()))),
                    }
                },
                other => Err(DecodeError::Format(FormatError::UnexpectedKind(other.kind()))),
            },
            ElementDecoder::Bool => match value {
                RawValue::Bool(b) => Ok(FieldValue::Bool(*b)),
                other => Err(DecodeError::Format(FormatError::UnexpectedKind(other.kind()))),
            },
            ElementDecoder::Unit => match Unit::decode(value) {
                Ok(u) => Ok(FieldValue::Unit(u)),
                Err(e) => Err(e),
            },
            ElementDecoder::Flags => match VecOrMap::<Flags>::decode(value) {
                Ok(f) => Ok(FieldValue::Flags(f)),
                Err(e) => Err(e),
            },
            ElementDecoder::Limit => match IntOrInfinite::decode(value) {
                Ok(l) => Ok(FieldValue::Limit(l)),
                Err(e) => Err(e),
            },
            ElementDecoder::NotUsed => match NotUsed::decode(value) {
                Ok(_) => Ok(FieldValue::NotUsed),
                Err(e) => Err(e),
            },
        }
    }
}

/// One field of a record: its canonical name, the other spellings under which it is read,
/// whether it must be present, and how its value is decoded.
#[derive(Debug)]
pub struct FieldSpec {
    pub name: String,
    pub aliases: Vec<String>,
    pub required: bool,
    pub decoder: ElementDecoder,
}

/// The mathematical content of a [`FieldSpec`].
pub struct FieldSpecView {
    pub name: Seq<char>,
    pub aliases: Seq<Seq<char>>,
    pub required: bool,
    pub decoder: ElementDecoder,
}

impl View for FieldSpec {
    type V = FieldSpecView;

    open spec fn view(&self) -> FieldSpecView {
        FieldSpecView {
            name: self.name@,
            aliases: texts_view(self.aliases@),
            required: self.required,
            decoder: self.decoder,
        }
    }
}

/// The field table of one record category.
#[derive(Debug)]
pub struct Schema {
    pub record: String,
    pub fields: Vec<FieldSpec>,
}

/// The mathematical content of a [`Schema`].
pub struct SchemaView {
    pub record: Seq<char>,
    pub fields: Seq<FieldSpecView>,
}

impl View for Schema {
    type V = SchemaView;

    open spec fn view(&self) -> SchemaView {
        SchemaView { record: self.record@, fields: Seq::new(self.fields@.len(), |i: int| self.fields@[i]@) }
    }
}

/// Whether `key` is a spelling of `field`.
pub open spec fn accepts(field: FieldSpecView, key: Seq<char>) -> bool {
    field.name == key || field.aliases.contains(key)
}

/// The first field from position `from` on of which `key` is a spelling.
pub open spec fn field_of(fields: Seq<FieldSpecView>, key: Seq<char>, from: int) -> Option<int>
    decreases fields.len() - from,
{
    if from < 0 || from >= fields.len() {
        None
    } else if accepts(fields[from], key) {
        Some(from)
    } else {
        field_of(fields, key, from + 1)
    }
}

/// What a scan has gathered: for each field of the table what was decoded for it, and the
/// entries whose keys no field accepts.
pub struct FieldsView {
    pub values: Seq<Option<FieldValueView>>,
    pub remaining: Seq<(Seq<char>, JsonValue)>,
}

/// The state of a scan before its first entry.
pub open spec fn scan_start(fields: Seq<FieldSpecView>) -> FieldsView {
    FieldsView { values: Seq::new(fields.len(), |i: int| None), remaining: Seq::empty() }
}

/// One step of the scan: an entry whose key a field accepts is decoded by that field's decoder
/// and takes the field's place, whatever stood there; `null` for an optional field leaves it
/// absent; any other entry goes to the remaining bucket undecoded.
pub open spec fn scan_step(
    fields: Seq<FieldSpecView>,
    state: FieldsView,
    key: Seq<char>,
    value: JsonValue,
) -> Result<FieldsView, DecodeErrorView> {
    match field_of(fields, key, 0) {
        Some(at) => if !fields[at].required && value is Null {
            Ok(FieldsView { values: state.values.update(at, None), remaining: state.remaining })
        } else {
            match element_decoded(fields[at].decoder, value) {
                Ok(v) => Ok(
                    FieldsView {
                        values: state.values.update(at, Some(v)),
                        remaining: state.remaining,
                    },
                ),
                Err(e) => Err(e),
            }
        },
        None => Ok(FieldsView { values: state.values, remaining: put(state.remaining, key, value) }),
    }
}

/// The scan of the first `upto` entries, in the order of the document. The first entry that
/// its decoder refuses ends the scan with that decoder's error.
pub open spec fn scanned(
    fields: Seq<FieldSpecView>,
    entries: Seq<(Seq<char>, JsonValue)>,
    upto: int,
) -> Result<FieldsView, DecodeErrorView>
    decreases upto,
{
    if upto <= 0 {
        Ok(scan_start(fields))
    } else {
        match scanned(fields, entries, upto - 1) {
            Err(e) => Err(e),
            Ok(state) => scan_step(fields, state, entries[upto - 1].0, entries[upto - 1].1),
        }
    }
}

/// The canonical names of the required fields among the first `upto` for which `values` holds
/// nothing, in the order of the table.
pub open spec fn missing(
    fields: Seq<FieldSpecView>,
    values: Seq<Option<FieldValueView>>,
    upto: int,
) -> Seq<Seq<char>>
    decreases upto,
{
    if upto <= 0 {
        Seq::empty()
    } else if fields[upto - 1].required && values[upto - 1] is None {
        missing(fields, values, upto - 1).push(fields[upto - 1].name)
    } else {
        missing(fields, values, upto - 1)
    }
}

/// The keys of a bucket, in its order.
pub open spec fn keys_of(bucket: Seq<(Seq<char>, JsonValue)>) -> Seq<Seq<char>> {
    Seq::new(bucket.len(), |i: int| bucket[i].0)
}

/// What decoding a value as a record of `schema` gives. A map is scanned entry by entry; after
/// the scan, a required field that is still absent fails the record with the names of all
/// such fields, the record type and the keys in the remaining bucket.
pub open spec fn record_decoded(schema: SchemaView, value: JsonValue) -> Result<
    FieldsView,
    DecodeErrorView,
> {
    match value {
        JsonValue::Object(entries) => match scanned(schema.fields, entries, entries.len() as int) {
            Err(e) => Err(e),
            Ok(state) => {
                let absent = missing(schema.fields, state.values, schema.fields.len() as int);
                if absent.len() > 0 {
                    Err(
                        DecodeErrorView::Schema(
                            SchemaViolationView {
                                record: schema.record,
                                missing: absent,
                                remaining: keys_of(state.remaining),
                            },
                        ),
                    )
                } else {
                    Ok(state)
                }
            },
        },
        other => Err(wrong_kind(other)),
    }
}

/// The fields of one decoded record, by position in the table, with the remaining bucket.
#[derive(Debug)]
pub struct Fields {
    pub values: Vec<Option<FieldValue>>,
    pub remaining: Table<RawValue>,
}

/// The values of a sequence of fields, seen through their views.
pub open spec fn values_of(values: Seq<Option<FieldValue>>) -> Seq<Option<FieldValueView>> {
    Seq::new(
        values.len(),
        |i: int|
            match values[i] {
                Some(v) => Some(v@),
                None => None,
            },
    )
}

impl View for Fields {
    type V = FieldsView;

    open spec fn view(&self) -> FieldsView {
        FieldsView {
            values: values_of(self.values@),
            remaining: entries_view(self.remaining.entries()),
        }
    }
}

/// Putting a value into a table of distinct names is [`put`] on the views.
pub proof fn lemma_put_matches(
    before: Seq<(String, RawValue)>,
    after: Seq<(String, RawValue)>,
    name: Seq<char>,
    value: JsonValue,
)
    requires
        distinct_names(before),
        match position_of(before, name) {
            Some(at) => after.len() == before.len() && after[at].0@ == name && after[at].1@
                == value && forall|i: int|
                0 <= i < before.len() && i != at ==> after[i] == before[i],
            None => after.len() == before.len() + 1 && after.last().0@ == name && after.last().1@
                == value && forall|i: int| 0 <= i < before.len() ==> after[i] == before[i],
        },
    ensures
        entries_view(after) == put(entries_view(before), name, value),
{
    let old_view = entries_view(before);
    match position_of(before, name) {
        Some(at) => {
            assert(old_view[at].0 == name);
            let c = slot_of(old_view, name)->Some_0;
            assert(before[c].0@ == name);
            assert(c == at);
            assert(entries_view(after) =~= old_view.update(at, (name, value)));
        },
        None => {
            if exists|i: int| 0 <= i < old_view.len() && (#[trigger] old_view[i]).0 == name {
                let i = choose|i: int| 0 <= i < old_view.len() && (#[trigger] old_view[i]).0 == name;
                assert(before[i].0@ == name);
            }
            assert(entries_view(after) =~= old_view.push((name, value)));
        },
    }
}

/// Where no required field is missing, every required field holds a value.
pub proof fn lemma_none_missing(
    fields: Seq<FieldSpecView>,
    values: Seq<Option<FieldValueView>>,
    upto: int,
)
    requires
        missing(fields, values, upto).len() == 0,
    ensures
        forall|i: int| 0 <= i < upto && fields[i].required ==> (#[trigger] values[i]) is Some,
    decreases upto,
{
    if upto > 0 {
        lemma_none_missing(fields, values, upto - 1);
    }
}

/// Once an entry has been refused, the scan ends with that error however many entries follow.
pub proof fn lemma_scan_failure_stays(
    fields: Seq<FieldSpecView>,
    entries: Seq<(Seq<char>, JsonValue)>,
    at: int,
    upto: int,
)
    requires
        0 <= at <= upto,
        scanned(fields, entries, at) is Err,
    ensures
        scanned(fields, entries, upto) == scanned(fields, entries, at),
    decreases upto - at,
{
    if at < upto {
        lemma_scan_failure_stays(fields, entries, at, upto - 1);
    }
}

impl Schema {
    /// The first field of which `key` is a spelling.
    pub fn find_field(&self, key: &str) -> (found: Option<usize>)
        ensures
            match found {
                Some(at) => field_of(self@.fields, key@, 0) == Some(at as int) && at
                    < self.fields@.len(),
                None => field_of(self@.fields, key@, 0) is None,
            },
    {
        let mut i: usize = 0;
        while i < self.fields.len()
            invariant
                i <= self.fields.len(),
                field_of(self@.fields, key@, 0) == field_of(self@.fields, key@, i as int),
            decreases self.fields.len() - i,
        {
            let field = &self.fields[i];
            let ghost model = self@.fields[i as int];
            assert(model == field@);
            let mut hit = crate::text::same_text(field.name.as_str(), key);
            let mut j: usize = 0;
            while !hit && j < field.aliases.len()
                invariant
                    j <= field.aliases.len(),
                    model == field@,
                    hit ==> accepts(model, key@),
                    !hit ==> model.name != key@ && forall|k: int|
                        0 <= k < j ==> (#[trigger] model.aliases[k]) != key@,
                decreases field.aliases.len() - j + if hit { 0int } else { 1int },
            {
                assert(model.aliases[j as int] == field.aliases@[j as int]@);
                if crate::text::same_text(field.aliases[j].as_str(), key) {
                    hit = true;
                } else {
                    j += 1;
                }
            }
            if hit {
                return Some(i);
            }
            i += 1;
        }
        None
    }

    /// Decodes one record: scans the entries of the map once, in order, decoding what the
    /// table knows and keeping the rest, then checks that no required field is absent.
    pub fn decode(&self, value: &RawValue) -> (got: Result<Fields, DecodeError>)
        ensures
            agrees(got, record_decoded(self@, value@)),
            got matches Ok(fields) ==> {
                &&& fields.remaining.wf()
                &&& fields.values@.len() == self.fields@.len()
                &&& forall|i: int|
                    0 <= i < self.fields@.len() ==> match #[trigger] fields.values@[i] {
                        Some(v) => is_of(v@, self.fields@[i].decoder),
                        None => !self.fields@[i].required,
                    }
            },
    {
        let entries = match value {
            RawValue::Object(entries) => entries,
            other => {
                return Err(DecodeError::Format(FormatError::UnexpectedKind(other.kind())));
            },
        };
        proof {
            RawValue::lemma_object_view(*entries);
        }
        let ghost all = entries_view(entries@);
        let ghost table = self@.fields;
        let mut values: Vec<Option<FieldValue>> = Vec::new();
        let mut k: usize = 0;
        while k < self.fields.len()
            invariant
                k <= self.fields.len(),
                values@.len() == k,
                forall|i: int| 0 <= i < k ==> (#[trigger] values@[i]) is None,
            decreases self.fields.len() - k,
        {
            values.push(None);
            k += 1;
        }
        let mut remaining: Table<RawValue> = Table::new();
        assert(values_of(values@) =~= scan_start(table).values);
        assert(entries_view(remaining.entries()) =~= scan_start(table).remaining);
        let mut i: usize = 0;
        while i < entries.len()
            invariant
                i <= entries.len(),
                all == entries_view(entries@),
                table == self@.fields,
                value@ == JsonValue::Object(all),
                remaining.wf(),
                values@.len() == self.fields@.len(),
                forall|j: int|
                    0 <= j < values@.len() ==> ((#[trigger] values@[j]) matches Some(v) ==> is_of(
                        v@,
                        self.fields@[j].decoder,
                    )),
                scanned(table, all, i as int) == Ok::<FieldsView, DecodeErrorView>(
                    FieldsView {
                        values: values_of(values@),
                        remaining: entries_view(remaining.entries()),
                    },
                ),
            decreases entries.len() - i,
        {
            let key = &entries[i].0;
            let item = &entries[i].1;
            assert(all[i as int] == (key@, item@));
            let ghost before_values = values_of(values@);
            match self.find_field(key.as_str()) {
                Some(at) => {
                    assert(table[at as int] == self.fields@[at as int]@);
                    let is_null = match item {
                        RawValue::Null => true,
                        _ => false,
                    };
                    if !self.fields[at].required && is_null {
                        values.set(at, None);
                        assert(values_of(values@) =~= before_values.update(at as int, None));
                    } else {
                        match self.fields[at].decoder.apply(item) {
                            Ok(v) => {
                                let ghost view = v@;
                                values.set(at, Some(v));
                                assert(values_of(values@) =~= before_values.update(
                                    at as int,
                                    Some(view),
                                ));
                            },
                            Err(e) => {
                                proof {
                                    lemma_scan_failure_stays(
                                        table,
                                        all,
                                        i as int + 1,
                                        all.len() as int,
                                    );
                                }
                                return Err(e);
                            },
                        }
                    }
                },
                None => {
                    let ghost before = remaining.entries();
                    proof {
                        remaining.lemma_distinct();
                    }
                    let copy = item.duplicate();
                    remaining.insert(key.clone(), copy);
                    proof {
                        lemma_put_matches(before, remaining.entries(), key@, item@);
                    }
                },
            }
            i += 1;
        }
        let mut absent: Vec<String> = Vec::new();
        let mut f: usize = 0;
        while f < self.fields.len()
            invariant
                f <= self.fields.len(),
                table == self@.fields,
                values@.len() == self.fields@.len(),
                texts_view(absent@) == missing(table, values_of(values@), f as int),
            decreases self.fields.len() - f,
        {
            assert(table[f as int] == self.fields@[f as int]@);
            let ghost before = texts_view(absent@);
            if self.fields[f].required && values[f].is_none() {
                absent.push(self.fields[f].name.clone());
                assert(texts_view(absent@) =~= before.push(table[f as int].name));
            }
            f += 1;
        }
        if absent.len() > 0 {
            let mut keys: Vec<String> = Vec::new();
            let mut r: usize = 0;
            while r < remaining.len()
                invariant
                    r <= remaining.entries().len(),
                    keys@.len() == r,
                    forall|j: int| 0 <= j < r ==> (#[trigger] keys@[j])@ == remaining.entries()[j].0@,
                decreases remaining.entries().len() - r,
            {
                keys.push(remaining.name_at(r).clone());
                r += 1;
            }
            assert(texts_view(keys@) =~= keys_of(entries_view(remaining.entries())));
            return Err(
                DecodeError::Schema(
                    SchemaViolation { record: self.record.clone(), missing: absent, remaining: keys },
                ),
            );
        }
        proof {
            lemma_none_missing(table, values_of(values@), table.len() as int);
            assert forall|i: int| 0 <= i < self.fields@.len() implies match #[trigger] values@[i] {
                Some(v) => is_of(v@, self.fields@[i].decoder),
                None => !self.fields@[i].required,
            } by {
                assert(table[i] == self.fields@[i]@);
                assert(values_of(values@)[i] is Some == values@[i] is Some);
            }
        }
        Ok(Fields { values, remaining })
    }
}

/// The scan reads a key only through the field that accepts it: two runs of entries with the
/// same values, whose keys are spellings of the same fields, and the same keys where no field
/// accepts them, scan alike.
pub proof fn lemma_spellings_scan_alike(
    fields: Seq<FieldSpecView>,
    a: Seq<(Seq<char>, JsonValue)>,
    b: Seq<(Seq<char>, JsonValue)>,
    upto: int,
)
    requires
        0 <= upto <= a.len(),
        a.len() == b.len(),
        forall|i: int|
            0 <= i < upto ==> (#[trigger] a[i]).1 == b[i].1 && field_of(fields, a[i].0, 0)
                == field_of(fields, b[i].0, 0) && (field_of(fields, a[i].0, 0) is None ==> a[i].0
                == b[i].0),
    ensures
        scanned(fields, a, upto) == scanned(fields, b, upto),
    decreases upto,
{
    if upto > 0 {
        lemma_spellings_scan_alike(fields, a, b, upto - 1);
        assert(a[upto - 1].1 == b[upto - 1].1);
    }
}

/// A record decodes to the same fields under whichever accepted spelling each of its keys is
/// written.
pub proof fn lemma_spellings_decode_alike(
    schema: SchemaView,
    a: Seq<(Seq<char>, JsonValue)>,
    b: Seq<(Seq<char>, JsonValue)>,
)
    requires
        a.len() == b.len(),
        forall|i: int|
            0 <= i < a.len() ==> (#[trigger] a[i]).1 == b[i].1 && field_of(schema.fields, a[i].0, 0)
                == field_of(schema.fields, b[i].0, 0) && (field_of(schema.fields, a[i].0, 0)
                is None ==> a[i].0 == b[i].0),
    ensures
        record_decoded(schema, JsonValue::Object(a)) == record_decoded(
            schema,
            JsonValue::Object(b),
        ),
{
    lemma_spellings_scan_alike(schema.fields, a, b, a.len() as int);
}

/// A required field that no entry of a record spells is reported as missing.
pub proof fn lemma_absent_required_field_fails(
    schema: SchemaView,
    entries: Seq<(Seq<char>, JsonValue)>,
    at: int,
)
    requires
        0 <= at < schema.fields.len(),
        schema.fields[at].required,
        forall|i: int| 0 <= i < entries.len() ==> field_of(schema.fields, (#[trigger] entries[i]).0, 0) != Some(at),
    ensures
        record_decoded(schema, JsonValue::Object(entries)) is Err,
{
    lemma_untouched_stays_absent(schema.fields, entries, entries.len() as int, at);
    if let Ok(state) = scanned(schema.fields, entries, entries.len() as int) {
        lemma_missing_holds(schema.fields, state.values, schema.fields.len() as int, at);
    }
}

/// A field that no entry among the first `upto` spells holds nothing after them.
pub proof fn lemma_untouched_stays_absent(
    fields: Seq<FieldSpecView>,
    entries: Seq<(Seq<char>, JsonValue)>,
    upto: int,
    at: int,
)
    requires
        0 <= upto <= entries.len(),
        0 <= at < fields.len(),
        forall|i: int| 0 <= i < upto ==> field_of(fields, (#[trigger] entries[i]).0, 0) != Some(at),
    ensures
        scanned(fields, entries, upto) matches Ok(state) ==> state.values.len() == fields.len()
            && state.values[at] is None,
    decreases upto,
{
    if upto > 0 {
        lemma_untouched_stays_absent(fields, entries, upto - 1, at);
        assert(field_of(fields, entries[upto - 1].0, 0) != Some(at));
        lemma_field_of_in_range(fields, entries[upto - 1].0, 0);
    }
}

/// The field that accepts a key is a field of the table.
pub proof fn lemma_field_of_in_range(fields: Seq<FieldSpecView>, key: Seq<char>, from: int)
    requires
        0 <= from,
    ensures
        field_of(fields, key, from) matches Some(at) ==> from <= at < fields.len() && accepts(
            fields[at],
            key,
        ),
    decreases fields.len() - from,
{
    if from < fields.len() && !accepts(fields[from], key) {
        lemma_field_of_in_range(fields, key, from + 1);
    }
}

/// A required field that holds nothing is among the missing.
pub proof fn lemma_missing_holds(
    fields: Seq<FieldSpecView>,
    values: Seq<Option<FieldValueView>>,
    upto: int,
    at: int,
)
    requires
        0 <= at < upto,
        fields[at].required,
        values[at] is None,
    ensures
        missing(fields, values, upto).len() > 0,
    decreases upto,
{
    if at < upto - 1 {
        lemma_missing_holds(fields, values, upto - 1, at);
    }
}

/// Whether `at` is the last of the first `upto` entries under the key `key`.
pub open spec fn last_under(
    entries: Seq<(Seq<char>, JsonValue)>,
    upto: int,
    key: Seq<char>,
    at: int,
) -> bool {
    &&& 0 <= at < upto
    &&& entries[at].0 == key
    &&& forall|i: int| at < i < upto ==> (#[trigger] entries[i]).0 != key
}

/// The remaining bucket of a scan holds each key that no field accepts once, with the value
/// of the last entry under that key, undecoded; and it holds no other key.
pub proof fn lemma_remaining_holds_the_unknown(
    fields: Seq<FieldSpecView>,
    entries: Seq<(Seq<char>, JsonValue)>,
    upto: int,
)
    requires
        0 <= upto <= entries.len(),
    ensures
        scanned(fields, entries, upto) matches Ok(state) ==> {
            &&& forall|i: int, j: int|
                0 <= i < state.remaining.len() && 0 <= j < state.remaining.len() && i != j ==> (
                #[trigger] state.remaining[i]).0 != (#[trigger] state.remaining[j]).0
            &&& forall|i: int|
                0 <= i < state.remaining.len() ==> field_of(
                    fields,
                    (#[trigger] state.remaining[i]).0,
                    0,
                ) is None && exists|at: int|
                    last_under(entries, upto, state.remaining[i].0, at) && entries[at].1
                        == state.remaining[i].1
            &&& forall|at: int|
                0 <= at < upto && field_of(fields, (#[trigger] entries[at]).0, 0) is None
                    ==> exists|i: int|
                    0 <= i < state.remaining.len() && (#[trigger] state.remaining[i]).0
                        == entries[at].0
        },
    decreases upto,
{
    if upto > 0 {
        lemma_remaining_holds_the_unknown(fields, entries, upto - 1);
        if let Ok(before) = scanned(fields, entries, upto - 1) {
            if let Ok(state) = scanned(fields, entries, upto) {
                let key = entries[upto - 1].0;
                let value = entries[upto - 1].1;
                let old = before.remaining;
                let new = state.remaining;
                if field_of(fields, key, 0) is None {
                    assert(new == put(old, key, value));
                    match slot_of(old, key) {
                        Some(c) => {
                            assert(old[c].0 == key);
                            assert(new.len() == old.len());
                            assert forall|i: int| 0 <= i < new.len() implies (#[trigger] new[i]).0
                                == old[i].0 by {}
                            assert forall|i: int| 0 <= i < new.len() implies field_of(
                                fields,
                                (#[trigger] new[i]).0,
                                0,
                            ) is None && exists|at: int|
                                last_under(entries, upto, new[i].0, at) && entries[at].1
                                    == new[i].1 by {
                                if i == c {
                                    assert(last_under(entries, upto, key, upto - 1));
                                } else {
                                    assert(new[i] == old[i]);
                                    let at = choose|at: int|
                                        last_under(entries, upto - 1, old[i].0, at) && entries[at].1
                                            == old[i].1;
                                    assert(old[i].0 != old[c].0);
                                    assert(last_under(entries, upto, old[i].0, at));
                                }
                            }
                            assert forall|at: int|
                                0 <= at < upto && field_of(fields, (#[trigger] entries[at]).0, 0)
                                    is None implies exists|i: int|
                                0 <= i < new.len() && (#[trigger] new[i]).0 == entries[at].0 by {
                                if at < upto - 1 {
                                    let i = choose|i: int|
                                        0 <= i < old.len() && (#[trigger] old[i]).0 == entries[at].0;
                                    assert(new[i].0 == entries[at].0);
                                } else {
                                    assert(new[c].0 == key);
                                }
                            }
                        },
                        None => {
                            assert(new.len() == old.len() + 1);
                            assert forall|i: int, j: int|
                                0 <= i < new.len() && 0 <= j < new.len() && i != j implies (
                            #[trigger] new[i]).0 != (#[trigger] new[j]).0 by {
                                if i < old.len() && j < old.len() {
                                    assert(new[i] == old[i] && new[j] == old[j]);
                                } else if i < old.len() {
                                    assert(new[i] == old[i]);
                                } else if j < old.len() {
                                    assert(new[j] == old[j]);
                                }
                            }
                            assert forall|i: int| 0 <= i < new.len() implies field_of(
                                fields,
                                (#[trigger] new[i]).0,
                                0,
                            ) is None && exists|at: int|
                                last_under(entries, upto, new[i].0, at) && entries[at].1
                                    == new[i].1 by {
                                if i == old.len() {
                                    assert(last_under(entries, upto, key, upto - 1));
                                } else {
                                    assert(new[i] == old[i]);
                                    let at = choose|at: int|
                                        last_under(entries, upto - 1, old[i].0, at) && entries[at].1
                                            == old[i].1;
                                    assert(last_under(entries, upto, old[i].0, at));
                                }
                            }
                            assert forall|at: int|
                                0 <= at < upto && field_of(fields, (#[trigger] entries[at]).0, 0)
                                    is None implies exists|i: int|
                                0 <= i < new.len() && (#[trigger] new[i]).0 == entries[at].0 by {
                                if at < upto - 1 {
                                    let i = choose|i: int|
                                        0 <= i < old.len() && (#[trigger] old[i]).0 == entries[at].0;
                                    assert(new[i] == old[i]);
                                } else {
                                    assert(new[old.len() as int].0 == key);
                                }
                            }
                        },
                    }
                } else {
                    assert(new == old);
                    assert forall|i: int| 0 <= i < new.len() implies field_of(
                        fields,
                        (#[trigger] new[i]).0,
                        0,
                    ) is None && exists|at: int|
                        last_under(entries, upto, new[i].0, at) && entries[at].1 == new[i].1 by {
                        let at = choose|at: int|
                            last_under(entries, upto - 1, old[i].0, at) && entries[at].1
                                == old[i].1;
                        assert(last_under(entries, upto, old[i].0, at));
                    }
                }
            }
        }
    }
}

} // verus!
