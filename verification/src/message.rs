use crate::decode::flags::{all_flags, hyphenated, Flags};
use crate::decode::unit::{all_units, label_of, UnitType};
use crate::error::{
    texts_view, DecodeError, DecodeErrorView, FormatError, FormatErrorView, Kind, SchemaViolation,
    SchemaViolationView,
};
use crate::lattice::collapse::{AmbiguityView, SchemaAmbiguity};
use crate::lattice::shape::{shapes_view, Shape, ShapeDescriptor};
use vstd::prelude::*;
use vstd::string::StringExecFns;

verus! {

/// The first `upto` of `parts`, each between `open` and `close`, with `sep` between them.
pub open spec fn listed(
    parts: Seq<Seq<char>>,
    open: Seq<char>,
    close: Seq<char>,
    sep: Seq<char>,
    upto: int,
) -> Seq<char>
    decreases upto,
{
    if upto <= 0 {
        Seq::empty()
    } else if upto == 1 {
        open + parts[0] + close
    } else {
        listed(parts, open, close, sep, upto - 1) + sep + open + parts[upto - 1] + close
    }
}

/// The labels of the units, in the order of declaration.
pub open spec fn unit_labels() -> Seq<Seq<char>> {
    Seq::new(all_units().len(), |i: int| label_of(all_units()[i]))
}

/// The hyphenated names of the flags, in the order of declaration.
pub open spec fn flag_names() -> Seq<Seq<char>> {
    Seq::new(all_flags().len(), |i: int| hyphenated(all_flags()[i]))
}

/// The kind of a value in words.
pub open spec fn kind_name(kind: Kind) -> Seq<char> {
    match kind {
        Kind::Null => "null"@,
        Kind::Bool => "a boolean"@,
        Kind::Number => "a number"@,
        Kind::String => "a string"@,
        Kind::Array => "a sequence"@,
        Kind::Object => "a map"@,
    }
}

/// The text that tells a maintainer of the schema what went wrong with a scalar.
pub open spec fn format_message(e: FormatErrorView) -> Seq<char> {
    match e {
        FormatErrorView::ExpectedEmptyMap => "expected an empty map"@,
        FormatErrorView::InvalidAmount(t) => "invalid amount `"@ + t + "`"@,
        FormatErrorView::UnknownUnit(t) => "unknown unit `"@ + t + "`, expected one of "@ + listed(
            unit_labels(),
            "`"@,
            "`"@,
            ", "@,
            unit_labels().len() as int,
        ),
        FormatErrorView::UnknownFlag(t) => "unknown flag `"@ + t + "`, expected one of "@ + listed(
            flag_names(),
            "`"@,
            "`"@,
            ", "@,
            flag_names().len() as int,
        ),
        FormatErrorView::InvalidInteger(t) => "invalid integer `"@ + t + "`"@,
        FormatErrorView::InvalidLimit(t) => "invalid value `"@ + t
            + "`, expected an integer or the string \"infinite\""@,
        FormatErrorView::UnexpectedKind(k) => "unexpected value: "@ + kind_name(k),
        FormatErrorView::UnknownField(t) => "unknown field `"@ + t
            + "`, expected `amount` or `unit_type`"@,
        FormatErrorView::MissingField => "missing field `amount or unit_type`"@,
    }
}

/// The text that names every missing field, the record type and the keys in the remaining
/// bucket.
pub open spec fn schema_message(e: SchemaViolationView) -> Seq<char> {
    "Missing fields "@ + listed(e.missing, "'"@, "'"@, ", "@, e.missing.len() as int)
        + " in struct "@ + e.record + ", should "@ + (if e.missing.len() == 1 {
        "this"@
    } else {
        "these"@
    }) + " be made optional? Keys in remaining: ["@ + listed(
        e.remaining,
        "\""@,
        "\""@,
        ", "@,
        e.remaining.len() as int,
    ) + "]"@
}

/// The text of an error of decoding.
pub open spec fn message_of(e: DecodeErrorView) -> Seq<char> {
    match e {
        DecodeErrorView::Format(f) => format_message(f),
        DecodeErrorView::Schema(s) => schema_message(s),
    }
}

/// Appends [`listed`] of `parts` to `out`.
fn append_listed(out: &mut String, parts: &Vec<String>, open: &str, close: &str, sep: &str)
    ensures
        final(out)@ == old(out)@ + listed(
            texts_view(parts@),
            open@,
            close@,
            sep@,
            parts@.len() as int,
        ),
{
    let ghost start = out@;
    let ghost all = texts_view(parts@);
    let mut i: usize = 0;
    while i < parts.len()
        invariant
            i <= parts.len(),
            all == texts_view(parts@),
            out@ == start + listed(all, open@, close@, sep@, i as int),
        decreases parts.len() - i,
    {
        let ghost before = out@;
        if i > 0 {
            out.append(sep);
        }
        out.append(open);
        out.append(parts[i].as_str());
        out.append(close);
        proof {
            assert(all[i as int] == parts@[i as int]@);
            let so_far = listed(all, open@, close@, sep@, i as int);
            if i == 0 {
                assert(so_far =~= Seq::<char>::empty());
                assert(out@ =~= start + (open@ + all[0] + close@));
            } else {
                assert(out@ =~= start + (so_far + sep@ + open@ + all[i as int] + close@));
            }
        }
        i += 1;
    }
    assert(start + Seq::<char>::empty() =~= start);
}

/// Owned copies of `labels`.
fn owned(labels: Vec<&'static str>) -> (out: Vec<String>)
    ensures
        out@.len() == labels@.len(),
        forall|i: int| 0 <= i < out@.len() ==> (#[trigger] out@[i])@ == labels@[i]@,
{
    let mut out: Vec<String> = Vec::new();
    let mut i: usize = 0;
    while i < labels.len()
        invariant
            i <= labels.len(),
            out@.len() == i,
            forall|j: int| 0 <= j < i ==> (#[trigger] out@[j])@ == labels@[j]@,
        decreases labels.len() - i,
    {
        out.push(String::from_str(labels[i]));
        i += 1;
    }
    out
}

impl Kind {
    /// The kind in words.
    pub fn name(self) -> (name: &'static str)
        ensures
            name@ == kind_name(self),
    {
        match self {
            Kind::Null => "null",
            Kind::Bool => "a boolean",
            Kind::Number => "a number",
            Kind::String => "a string",
            Kind::Array => "a sequence",
            Kind::Object => "a map",
        }
    }
}

impl FormatError {
    /// The error in words. An unknown unit or flag is told with the whole accepted set.
    pub fn message(&self) -> (text: String)
        ensures
            text@ == format_message(self@),
    {
        match self {
            FormatError::ExpectedEmptyMap => String::from_str("expected an empty map"),
            FormatError::InvalidAmount(t) => {
                let mut text = String::from_str("invalid amount `");
                text.append(t.as_str());
                text.append("`");
                text
            },
            FormatError::UnknownUnit(t) => {
                let mut text = String::from_str("unknown unit `");
                text.append(t.as_str());
                text.append("`, expected one of ");
                let labels = owned(UnitType::all());
                assert(texts_view(labels@) =~= unit_labels());
                append_listed(&mut text, &labels, "`", "`", ", ");
                text
            },
            FormatError::UnknownFlag(t) => {
                let mut text = String::from_str("unknown flag `");
                text.append(t.as_str());
                text.append("`, expected one of ");
                let names = owned(Flags::all_names());
                assert(texts_view(names@) =~= flag_names());
                append_listed(&mut text, &names, "`", "`", ", ");
                text
            },
            FormatError::InvalidInteger(t) => {
                let mut text = String::from_str("invalid integer `");
                text.append(t.as_str());
                text.append("`");
                text
            },
            FormatError::InvalidLimit(t) => {
                let mut text = String::from_str("invalid value `");
                text.append(t.as_str());
                text.append("`, expected an integer or the string \"infinite\"");
                text
            },
            FormatError::UnexpectedKind(k) => {
                let mut text = String::from_str("unexpected value: ");
                text.append(k.name());
                text
            },
            FormatError::UnknownField(t) => {
                let mut text = String::from_str("unknown field `");
                text.append(t.as_str());
                text.append("`, expected `amount` or `unit_type`");
                text
            },
            FormatError::MissingField => String::from_str("missing field `amount or unit_type`"),
        }
    }
}

impl SchemaViolation {
    /// The violation in words: every missing field, the record type, and the keys that the
    /// remaining bucket held.
    pub fn message(&self) -> (text: String)
        ensures
            text@ == schema_message(self@),
    {
        let mut text = String::from_str("Missing fields ");
        append_listed(&mut text, &self.missing, "'", "'", ", ");
        text.append(" in struct ");
        text.append(self.record.as_str());
        text.append(", should ");
        if self.missing.len() == 1 {
            text.append("this");
        } else {
            text.append("these");
        }
        text.append(" be made optional? Keys in remaining: [");
        append_listed(&mut text, &self.remaining, "\"", "\"", ", ");
        text.append("]");
        text
    }
}

impl DecodeError {
    /// The error in words.
    pub fn message(&self) -> (text: String)
        ensures
            text@ == message_of(self@),
    {
        match self {
            DecodeError::Format(e) => e.message(),
            DecodeError::Schema(e) => e.message(),
        }
    }
}

/// The name of the variant of a shape.
pub open spec fn variant_name(shape: Shape) -> Seq<char> {
    match shape {
        Shape::Unknown => "Unknown"@,
        Shape::Skip => "Skip"@,
        Shape::StringSet(_) => "StringSet"@,
        Shape::Boolean => "Boolean"@,
        Shape::Integer { .. } => "Integer"@,
        Shape::Float { .. } => "Float"@,
        Shape::Object(_) => "Object"@,
        Shape::Array(_) => "Array"@,
        Shape::Multiple(_) => "Multiple"@,
        Shape::ListOrEmptyObject(_) => "ListOrEmptyObject"@,
        Shape::Color => "Color"@,
    }
}

/// The names of the variants of a sequence of shapes.
pub open spec fn variant_names(shapes: Seq<Shape>) -> Seq<Seq<char>> {
    Seq::new(shapes.len(), |i: int| variant_name(shapes[i]))
}

/// The text that tells a maintainer of the schema which shapes do not go together, and where.
pub open spec fn ambiguity_message(e: AmbiguityView) -> Seq<char> {
    "Unresolved shapes at `"@ + listed(e.path, ""@, ""@, "."@, e.path.len() as int) + "`: "@
        + listed(
        variant_names(e.members),
        ""@,
        ""@,
        ", "@,
        e.members.len() as int,
    )
}

impl ShapeDescriptor {
    /// The name of the variant.
    pub fn variant(&self) -> (name: &'static str)
        ensures
            name@ == variant_name(self@),
    {
        match self {
            ShapeDescriptor::Unknown => "Unknown",
            ShapeDescriptor::Skip => "Skip",
            ShapeDescriptor::StringSet(_) => "StringSet",
            ShapeDescriptor::Boolean => "Boolean",
            ShapeDescriptor::Integer { .. } => "Integer",
            ShapeDescriptor::Float { .. } => "Float",
            ShapeDescriptor::Object(_) => "Object",
            ShapeDescriptor::Array(_) => "Array",
            ShapeDescriptor::Multiple(_) => "Multiple",
            ShapeDescriptor::ListOrEmptyObject(_) => "ListOrEmptyObject",
            ShapeDescriptor::Color => "Color",
        }
    }
}

impl SchemaAmbiguity {
    /// The ambiguity in words: the path of the field and the variants of the members.
    pub fn message(&self) -> (text: String)
        ensures
            text@ == ambiguity_message(self@),
    {
        let mut names: Vec<String> = Vec::new();
        let mut i: usize = 0;
        while i < self.members.len()
            invariant
                i <= self.members.len(),
                names@.len() == i,
                forall|j: int|
                    0 <= j < i ==> (#[trigger] names@[j])@ == variant_name(self.members@[j]@),
            decreases self.members.len() - i,
        {
            names.push(String::from_str(self.members[i].variant()));
            i += 1;
        }
        assert(texts_view(names@) =~= variant_names(shapes_view(self.members@)));
        let mut text = String::from_str("Unresolved shapes at `");
        append_listed(&mut text, &self.path, "", "", ".");
        text.append("`: ");
        append_listed(&mut text, &names, "", "", ", ");
        text
    }
}

} // verus!
