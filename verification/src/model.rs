//! The in-memory model of a showfile: typed field values with their
//! formatting metadata, rows, sections, headers, and the file-wide
//! line-ending choice.

use vstd::prelude::*;

use crate::digits::{all_digits, is_alnum, pow16, B_BACKSLASH, B_CR, B_LF, B_QUOTE, B_ZERO};

verus! {

/// The line-ending sequence a document uses, captured from its first line
/// break and reused for every emitted line break.
#[derive(Debug, Clone, Copy, PartialEq, Eq, Structural)]
pub enum Eol {
    Lf,
    CrLf,
}

pub open spec fn eol_bytes(e: Eol) -> Seq<u8> {
    match e {
        Eol::Lf => seq![B_LF],
        Eol::CrLf => seq![B_CR, B_LF],
    }
}

/// A finite float field, held as its canonical rendering: sign, integer
/// digits (no superfluous leading zero), and exactly six fraction digits.
#[derive(Debug, Clone, PartialEq, Eq)]
pub struct FloatLit {
    pub neg: bool,
    pub int_digits: Vec<u8>,
    pub frac_digits: Vec<u8>,
}

pub struct FloatLitView {
    pub neg: bool,
    pub int_digits: Seq<u8>,
    pub frac_digits: Seq<u8>,
}

impl View for FloatLit {
    type V = FloatLitView;

    open spec fn view(&self) -> FloatLitView {
        FloatLitView { neg: self.neg, int_digits: self.int_digits@, frac_digits: self.frac_digits@ }
    }
}

/// One field of a row: a quoted string (content kept verbatim, with escape
/// sequences), a hexadecimal number with the digit width of its source, a
/// finite float, or a signed not-a-number token.
#[derive(Debug, Clone, PartialEq, Eq)]
pub enum Value {
    Str(Vec<u8>),
    Hex(u64, usize),
    Float(FloatLit),
    Nan(bool),
}

pub enum ValueView {
    Str(Seq<u8>),
    Hex(u64, nat),
    Float(FloatLitView),
    Nan(bool),
}

impl View for Value {
    type V = ValueView;

    open spec fn view(&self) -> ValueView {
        match self {
            Value::Str(s) => ValueView::Str(s@),
            Value::Hex(v, w) => ValueView::Hex(*v, *w as nat),
            Value::Float(f) => ValueView::Float(f@),
            Value::Nan(n) => ValueView::Nan(*n),
        }
    }
}

/// The semantic kind of a section, or the verbatim code of an unrecognized
/// one.
#[derive(Debug, Clone, PartialEq, Eq, Hash)]
pub enum SectionIdentifier {
    Version,
    Settings,
    Head,
    Fixture,
    Palette,
    Group,
    FX,
    Playback,
    CueStack,
    ExecutePage,
    ExecuteItem,
    Unknown(Vec<u8>),
}

pub enum SectionIdentifierView {
    Version,
    Settings,
    Head,
    Fixture,
    Palette,
    Group,
    FX,
    Playback,
    CueStack,
    ExecutePage,
    ExecuteItem,
    Unknown(Seq<u8>),
}

impl View for SectionIdentifier {
    type V = SectionIdentifierView;

    open spec fn view(&self) -> SectionIdentifierView {
        match self {
            SectionIdentifier::Version => SectionIdentifierView::Version,
            SectionIdentifier::Settings => SectionIdentifierView::Settings,
            SectionIdentifier::Head => SectionIdentifierView::Head,
            SectionIdentifier::Fixture => SectionIdentifierView::Fixture,
            SectionIdentifier::Palette => SectionIdentifierView::Palette,
            SectionIdentifier::Group => SectionIdentifierView::Group,
            SectionIdentifier::FX => SectionIdentifierView::FX,
            SectionIdentifier::Playback => SectionIdentifierView::Playback,
            SectionIdentifier::CueStack => SectionIdentifierView::CueStack,
            SectionIdentifier::ExecutePage => SectionIdentifierView::ExecutePage,
            SectionIdentifier::ExecuteItem => SectionIdentifierView::ExecuteItem,
            SectionIdentifier::Unknown(c) => SectionIdentifierView::Unknown(c@),
        }
    }
}

/// One free-text header line, kept verbatim (without its marker).
#[derive(Debug, Clone, PartialEq, Eq)]
pub struct Header(pub Vec<u8>);

impl View for Header {
    type V = Seq<u8>;

    open spec fn view(&self) -> Seq<u8> {
        self.0@
    }
}

impl Header {
    pub fn new(value: &[u8]) -> (r: Header)
        ensures
            r@ == value@,
    {
        Header(bytes_to_vec(value))
    }
}

/// An ordered run of fields, whether the last field was followed by a comma,
/// and how many line breaks followed the row.
#[derive(Debug, Clone, PartialEq, Eq)]
pub struct Row {
    pub values: Vec<Value>,
    pub trailing_comma: bool,
    pub trailing_newlines: usize,
}

pub struct RowView {
    pub values: Seq<ValueView>,
    pub trailing_comma: bool,
    pub trailing_newlines: nat,
}

impl View for Row {
    type V = RowView;

    open spec fn view(&self) -> RowView {
        RowView {
            values: self.values@.map_values(|v: Value| v@),
            trailing_comma: self.trailing_comma,
            trailing_newlines: self.trailing_newlines as nat,
        }
    }
}

impl Row {
    pub fn new(values: Vec<Value>, trailing_comma: bool, trailing_newlines: usize) -> (r: Row)
        ensures
            r@.values == values@.map_values(|v: Value| v@),
            r@.trailing_comma == trailing_comma,
            r@.trailing_newlines == trailing_newlines,
    {
        Row { values, trailing_comma, trailing_newlines }
    }

    pub fn get_values(&self) -> (r: &Vec<Value>)
        ensures
            r@.map_values(|v: Value| v@) == self@.values,
    {
        &self.values
    }

    pub fn has_trailing_comma(&self) -> (r: bool)
        ensures
            r == self@.trailing_comma,
    {
        self.trailing_comma
    }

    pub fn get_trailing_newlines(&self) -> (r: usize)
        ensures
            r == self@.trailing_newlines,
    {
        self.trailing_newlines
    }
}

impl Default for Row {
    /// An empty row: no fields, no trailing comma, no trailing line breaks.
    fn default() -> (r: Row)
        ensures
            r@.values.len() == 0,
            !r@.trailing_comma,
            r@.trailing_newlines == 0,
    {
        Row { values: Vec::new(), trailing_comma: false, trailing_newlines: 0 }
    }
}

/// A section: its identifier, its rows, and how many line breaks followed
/// its terminator.
#[derive(Debug, Clone, PartialEq, Eq)]
pub struct Section {
    pub identifier: SectionIdentifier,
    pub rows: Vec<Row>,
    pub trailing_newlines: usize,
}

pub struct SectionView {
    pub identifier: SectionIdentifierView,
    pub rows: Seq<RowView>,
    pub trailing_newlines: nat,
}

impl View for Section {
    type V = SectionView;

    open spec fn view(&self) -> SectionView {
        SectionView {
            identifier: self.identifier@,
            rows: self.rows@.map_values(|r: Row| r@),
            trailing_newlines: self.trailing_newlines as nat,
        }
    }
}

impl Section {
    pub fn new(identifier: SectionIdentifier, rows: Vec<Row>, trailing_newlines: usize) -> (r:
        Section)
        ensures
            r@.identifier == identifier@,
            r@.rows == rows@.map_values(|x: Row| x@),
            r@.trailing_newlines == trailing_newlines,
    {
        Section { identifier, rows, trailing_newlines }
    }

    pub fn get_identifier(&self) -> (r: &SectionIdentifier)
        ensures
            r@ == self@.identifier,
    {
        &self.identifier
    }

    pub fn get_rows(&self) -> (r: &Vec<Row>)
        ensures
            r@.map_values(|x: Row| x@) == self@.rows,
    {
        &self.rows
    }

    pub fn get_trailing_newlines(&self) -> (r: usize)
        ensures
            r == self@.trailing_newlines,
    {
        self.trailing_newlines
    }
}

/// A whole showfile: its headers, the count of blank lines between the last
/// header and the first section, the line-ending choice, and its sections.
#[derive(Debug, Clone, PartialEq, Eq)]
pub struct Showfile {
    pub headers: Vec<Header>,
    pub header_gap: usize,
    pub eol: Eol,
    pub sections: Vec<Section>,
}

pub struct ShowfileView {
    pub headers: Seq<Seq<u8>>,
    pub header_gap: nat,
    pub eol: Eol,
    pub sections: Seq<SectionView>,
}

impl View for Showfile {
    type V = ShowfileView;

    open spec fn view(&self) -> ShowfileView {
        ShowfileView {
            headers: self.headers@.map_values(|h: Header| h@),
            header_gap: self.header_gap as nat,
            eol: self.eol,
            sections: self.sections@.map_values(|s: Section| s@),
        }
    }
}

impl Showfile {
    pub fn new(headers: Vec<Header>, header_gap: usize, eol: Eol, sections: Vec<Section>) -> (r:
        Showfile)
        ensures
            r@.headers == headers@.map_values(|h: Header| h@),
            r@.header_gap == header_gap,
            r@.eol == eol,
            r@.sections == sections@.map_values(|s: Section| s@),
    {
        Showfile { headers, header_gap, eol, sections }
    }

    pub fn get_headers(&self) -> (r: &Vec<Header>)
        ensures
            r@.map_values(|h: Header| h@) == self@.headers,
    {
        &self.headers
    }

    pub fn get_sections(&self) -> (r: &Vec<Section>)
        ensures
            r@.map_values(|s: Section| s@) == self@.sections,
    {
        &self.sections
    }

    pub fn get_header_gap(&self) -> (r: usize)
        ensures
            r == self@.header_gap,
    {
        self.header_gap
    }

    pub fn get_eol(&self) -> (r: Eol)
        ensures
            r == self@.eol,
    {
        self.eol
    }
}

// ---------------------------------------------------------------------------
// The section-code table.
// ---------------------------------------------------------------------------

/// The codes the table knows; every other code is carried verbatim.
pub open spec fn known_code(c: Seq<u8>) -> bool {
    c.len() == 1 && (c[0] == 86  // V
     || c[0] == 84  // T
     || c[0] == 80  // P
     || c[0] == 76  // L
     || c[0] == 70  // F
     || c[0] == 71  // G
     || c[0] == 87  // W
     || c[0] == 83  // S
     || c[0] == 67  // C
     || c[0] == 77  // M
     || c[0] == 78  // N
    )
}

pub open spec fn spec_id_of_code(c: Seq<u8>) -> SectionIdentifierView {
    if c.len() == 1 {
        if c[0] == 86 {
            SectionIdentifierView::Version
        } else if c[0] == 84 {
            SectionIdentifierView::Settings
        } else if c[0] == 80 {
            SectionIdentifierView::Head
        } else if c[0] == 76 {
            SectionIdentifierView::Fixture
        } else if c[0] == 70 {
            SectionIdentifierView::Palette
        } else if c[0] == 71 {
            SectionIdentifierView::Group
        } else if c[0] == 87 {
            SectionIdentifierView::FX
        } else if c[0] == 83 {
            SectionIdentifierView::Playback
        } else if c[0] == 67 {
            SectionIdentifierView::CueStack
        } else if c[0] == 77 {
            SectionIdentifierView::ExecutePage
        } else if c[0] == 78 {
            SectionIdentifierView::ExecuteItem
        } else {
            SectionIdentifierView::Unknown(c)
        }
    } else {
        SectionIdentifierView::Unknown(c)
    }
}

pub open spec fn spec_code_of_id(id: SectionIdentifierView) -> Seq<u8> {
    match id {
        SectionIdentifierView::Version => seq![86u8],
        SectionIdentifierView::Settings => seq![84u8],
        SectionIdentifierView::Head => seq![80u8],
        SectionIdentifierView::Fixture => seq![76u8],
        SectionIdentifierView::Palette => seq![70u8],
        SectionIdentifierView::Group => seq![71u8],
        SectionIdentifierView::FX => seq![87u8],
        SectionIdentifierView::Playback => seq![83u8],
        SectionIdentifierView::CueStack => seq![67u8],
        SectionIdentifierView::ExecutePage => seq![77u8],
        SectionIdentifierView::ExecuteItem => seq![78u8],
        SectionIdentifierView::Unknown(c) => c,
    }
}

impl SectionIdentifier {
    /// Look a code up in the table; any unrecognized code is kept verbatim.
    pub fn from_code(code: &[u8]) -> (r: SectionIdentifier)
        ensures
            r@ == spec_id_of_code(code@),
    {
        if code.len() == 1 {
            let b = code[0];
            let r = match b {
                86 => SectionIdentifier::Version,
                84 => SectionIdentifier::Settings,
                80 => SectionIdentifier::Head,
                76 => SectionIdentifier::Fixture,
                70 => SectionIdentifier::Palette,
                71 => SectionIdentifier::Group,
                87 => SectionIdentifier::FX,
                83 => SectionIdentifier::Playback,
                67 => SectionIdentifier::CueStack,
                77 => SectionIdentifier::ExecutePage,
                78 => SectionIdentifier::ExecuteItem,
                _ => SectionIdentifier::Unknown(bytes_to_vec(code)),
            };
            proof {
                assert(code@ =~= seq![code@[0]]);
            }
            r
        } else {
            proof {
                assert(code@.len() != 1);
            }
            SectionIdentifier::Unknown(bytes_to_vec(code))
        }
    }

    /// The code the table writes for this identifier.
    pub fn to_code(&self) -> (r: Vec<u8>)
        ensures
            r@ == spec_code_of_id(self@),
    {
        match self {
            SectionIdentifier::Version => make_code(86),
            SectionIdentifier::Settings => make_code(84),
            SectionIdentifier::Head => make_code(80),
            SectionIdentifier::Fixture => make_code(76),
            SectionIdentifier::Palette => make_code(70),
            SectionIdentifier::Group => make_code(71),
            SectionIdentifier::FX => make_code(87),
            SectionIdentifier::Playback => make_code(83),
            SectionIdentifier::CueStack => make_code(67),
            SectionIdentifier::ExecutePage => make_code(77),
            SectionIdentifier::ExecuteItem => make_code(78),
            SectionIdentifier::Unknown(c) => {
                let mut out: Vec<u8> = Vec::new();
                let mut i: usize = 0;
                while i < c.len()
                    invariant
                        i <= c@.len(),
                        out@ == c@.subrange(0, i as int),
                    decreases c@.len() - i,
                {
                    out.push(c[i]);
                    i = i + 1;
                    proof {
                        assert(out@ =~= c@.subrange(0, i as int));
                    }
                }
                proof {
                    assert(out@ =~= c@);
                }
                out
            },
        }
    }
}

/// An owned copy of a byte slice.
pub fn bytes_to_vec(s: &[u8]) -> (r: Vec<u8>)
    ensures
        r@ == s@,
{
    let mut out: Vec<u8> = Vec::new();
    let mut i: usize = 0;
    while i < s.len()
        invariant
            i <= s@.len(),
            out@ == s@.subrange(0, i as int),
        decreases s@.len() - i,
    {
        out.push(s[i]);
        i = i + 1;
        proof {
            assert(out@ =~= s@.subrange(0, i as int));
        }
    }
    proof {
        assert(out@ =~= s@);
    }
    out
}

fn make_code(b: u8) -> (r: Vec<u8>)
    ensures
        r@ == seq![b],
{
    let mut v: Vec<u8> = Vec::new();
    v.push(b);
    proof {
        assert(v@ =~= seq![b]);
    }
    v
}

/// Looking the written code back up yields the identifier again.
pub proof fn lemma_code_table_bijective(id: SectionIdentifierView)
    requires
        wf_identifier(id),
    ensures
        spec_id_of_code(spec_code_of_id(id)) == id,
{
    match id {
        SectionIdentifierView::Unknown(c) => {
            assert(!known_code(c));
        },
        _ => {},
    }
}

// ---------------------------------------------------------------------------
// Well-formedness: exactly the shapes the parser can produce, and what the
// writer needs for the round trip.
// ---------------------------------------------------------------------------

/// String content as it sits between the quotes: any byte except an
/// unescaped quote, with a backslash escaping the byte after it.
pub open spec fn is_str_content(s: Seq<u8>) -> bool
    decreases s.len(),
{
    if s.len() == 0 {
        true
    } else if s[0] == B_BACKSLASH {
        s.len() >= 2 && is_str_content(s.skip(2))
    } else {
        s[0] != B_QUOTE && is_str_content(s.skip(1))
    }
}

pub open spec fn wf_float(f: FloatLitView) -> bool {
    &&& f.int_digits.len() >= 1
    &&& all_digits(f.int_digits)
    &&& (f.int_digits.len() == 1 || f.int_digits[0] != B_ZERO)
    &&& f.frac_digits.len() == 6
    &&& all_digits(f.frac_digits)
}

pub open spec fn wf_value(v: ValueView) -> bool {
    match v {
        ValueView::Str(s) => is_str_content(s),
        ValueView::Hex(x, w) => 1 <= w && (x as nat) < pow16(w),
        ValueView::Float(f) => wf_float(f),
        ValueView::Nan(_) => true,
    }
}

pub open spec fn wf_identifier(id: SectionIdentifierView) -> bool {
    match id {
        SectionIdentifierView::Unknown(c) => {
            &&& c.len() >= 1
            &&& (forall|i: int| 0 <= i < c.len() ==> is_alnum(#[trigger] c[i]))
            &&& !known_code(c)
        },
        _ => true,
    }
}

pub open spec fn wf_row(r: RowView) -> bool {
    &&& r.values.len() >= 1
    &&& (forall|i: int| 0 <= i < r.values.len() ==> wf_value(#[trigger] r.values[i]))
}

/// Every row of a section is well-formed, and every row but the last is
/// followed by at least one line break (a row followed directly by the
/// terminator can only be the last one).
pub open spec fn wf_section(s: SectionView) -> bool {
    &&& wf_identifier(s.identifier)
    &&& s.rows.len() >= 1
    &&& (forall|i: int| 0 <= i < s.rows.len() ==> wf_row(#[trigger] s.rows[i]))
    &&& (forall|i: int|
        0 <= i < s.rows.len() - 1 ==> (#[trigger] s.rows[i]).trailing_newlines >= 1)
}

/// Header text holds no line break of either style.
pub open spec fn wf_header(h: Seq<u8>) -> bool {
    forall|i: int| 0 <= i < h.len() ==> #[trigger] h[i] != B_CR && h[i] != B_LF
}

pub open spec fn wf_showfile(m: ShowfileView) -> bool {
    &&& m.headers.len() >= 1
    &&& m.header_gap >= 1
    &&& (forall|i: int| 0 <= i < m.headers.len() ==> wf_header(#[trigger] m.headers[i]))
    &&& (forall|i: int| 0 <= i < m.sections.len() ==> wf_section(#[trigger] m.sections[i]))
}

// ---------------------------------------------------------------------------
// Errors.
// ---------------------------------------------------------------------------

/// Which grammar rule failed, innermost first in a trace.
#[derive(Debug, Clone, Copy, PartialEq, Eq, Structural)]
pub enum ParseRule {
    Field,
    Row,
    Section,
    Identifier,
    Header,
    Showfile,
}

/// A positioned parse failure with the stack of rules that led to it,
/// innermost rule first.
#[derive(Debug, Clone, PartialEq, Eq)]
pub struct ParseError {
    pub offset: usize,
    pub trace: Vec<ParseRule>,
}

impl ParseError {
    pub fn new(offset: usize, rule: ParseRule) -> (r: ParseError)
        ensures
            r.offset == offset,
            r.trace@ == seq![rule],
    {
        let mut trace: Vec<ParseRule> = Vec::new();
        trace.push(rule);
        proof {
            assert(trace@ =~= seq![rule]);
        }
        ParseError { offset, trace }
    }

    /// Record that an enclosing rule failed because this error did.
    pub fn within(self, rule: ParseRule) -> (r: ParseError)
        ensures
            r.offset == self.offset,
            r.trace@ == self.trace@.push(rule),
    {
        let ParseError { offset, mut trace } = self;
        trace.push(rule);
        ParseError { offset, trace }
    }
}

/// A mismatch reported by the typed field accessors.
#[derive(Debug, Clone, PartialEq, Eq)]
pub enum ValueError {
    NotHex,
    NotString,
    NotFloat,
    WrongWidth { actual: usize, expected: usize },
}

/// The hexadecimal value of a field, required to carry exactly the given
/// digit width.
pub fn get_hex(value: &Value, len: usize) -> (r: Result<u64, ValueError>)
    ensures
        match r {
            Ok(x) => value@ matches ValueView::Hex(v, w) && x == v && w == len,
            Err(ValueError::WrongWidth { actual, expected }) => value@ matches ValueView::Hex(
                _,
                w,
            ) && w == actual && actual != len && expected == len,
            Err(ValueError::NotHex) => !(value@ matches ValueView::Hex(_, _)),
            Err(_) => false,
        },
{
    match value {
        Value::Hex(v, w) => {
            if *w == len {
                Ok(*v)
            } else {
                Err(ValueError::WrongWidth { actual: *w, expected: len })
            }
        },
        _ => Err(ValueError::NotHex),
    }
}

/// The string content of a field, failing on any other variant.
pub fn get_string(value: &Value) -> (r: Result<&Vec<u8>, ValueError>)
    ensures
        match r {
            Ok(s) => value@ matches ValueView::Str(c) && s@ == c,
            Err(ValueError::NotString) => !(value@ matches ValueView::Str(_)),
            Err(_) => false,
        },
{
    match value {
        Value::Str(s) => Ok(s),
        _ => Err(ValueError::NotString),
    }
}

/// The finite float of a field, failing on any other variant (a signed
/// not-a-number field is not a finite float).
pub fn get_float(value: &Value) -> (r: Result<&FloatLit, ValueError>)
    ensures
        match r {
            Ok(f) => value@ matches ValueView::Float(g) && f@ == g,
            Err(ValueError::NotFloat) => !(value@ matches ValueView::Float(_)),
            Err(_) => false,
        },
{
    match value {
        Value::Float(f) => Ok(f),
        _ => Err(ValueError::NotFloat),
    }
}

} // verus!
