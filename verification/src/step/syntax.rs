//! The text of a STEP file (ISO 10303-21).
use ruststep::ast::Record as SyntaxRecord;
use ruststep::ast::{DataSection, EntityInstance, Exchange, Name, Parameter};
use vstd::prelude::*;
use vstd::slice::slice_subrange;
use vstd::utf8::encode_utf8;

use super::assembly::{last_definitions, Assembly};
use super::entity::{
    arguments_view, entities_view, records_view, Argument, ArgumentView, Entity, EntityView, Item,
    Record, RecordView,
};
use crate::numbers::{all_digits, decimal, is_digit, parse_whole};
use crate::text;
use crate::text::utf8_lossy;

verus! {

// ---------------------------------------------------------------------------
// What the parser can take
// ---------------------------------------------------------------------------

/// What a place in a STEP file is part of.
#[derive(Clone, Copy, PartialEq, Eq, Structural, Debug)]
pub enum Mode {
    /// Anything that is none of the others.
    Code,
    /// A string in apostrophes.
    Text,
    /// A comment between `/*` and `*/`.
    Comment,
    /// A name in angle brackets.
    Angle,
}

/// What the place behind the first characters is part of.
pub open spec fn mode(s: Seq<char>, n: int) -> Mode
    decreases n,
{
    if n <= 0 {
        Mode::Code
    } else {
        let c = s[n - 1];
        let two = n >= 2;
        match mode(s, n - 1) {
            Mode::Code => if c == '\'' {
                Mode::Text
            } else if c == '<' {
                Mode::Angle
            } else if c == '*' && two && s[n - 2] == '/' && mode(s, n - 2) == Mode::Code {
                Mode::Comment
            } else {
                Mode::Code
            },
            Mode::Text => if c == '\'' {
                Mode::Code
            } else {
                Mode::Text
            },
            Mode::Angle => if c == '>' {
                Mode::Code
            } else {
                Mode::Angle
            },
            Mode::Comment => if c == '/' && two && s[n - 2] == '*' && mode(s, n - 2)
                == Mode::Comment {
                Mode::Code
            } else {
                Mode::Comment
            },
        }
    }
}

/// How many lists are open behind the first characters.
pub open spec fn nesting(s: Seq<char>, n: int) -> int
    decreases n,
{
    if n <= 0 {
        0
    } else if mode(s, n - 1) == Mode::Code && s[n - 1] == '(' {
        nesting(s, n - 1) + 1
    } else if mode(s, n - 1) == Mode::Code && s[n - 1] == ')' {
        nesting(s, n - 1) - 1
    } else {
        nesting(s, n - 1)
    }
}

/// Lists may be nested this deeply. The parser sets no limit, but it calls itself for each list
/// inside another until the stack is full. This limit is a choice of this library: a stack of two
/// megabytes, which is what a thread gets, holds this many calls of the parser without
/// optimization, and only a few more.
pub const MAX_NESTING: usize = 250;

/// What ends a STEP file. The parser reads no numbers and no lists behind it.
pub const END_MARKER: &'static str = "END-ISO-10303-21;";

/// Whether the end marker stands at a place.
pub open spec fn marker_at(s: Seq<char>, k: int) -> bool {
    &&& mode(s, k) == Mode::Code
    &&& k + END_MARKER@.len() <= s.len()
    &&& s.subrange(k, k + END_MARKER@.len()) == END_MARKER@
}

/// Where the first end marker at or behind a place is, or the end of the text.
pub open spec fn code_end(s: Seq<char>, k: int) -> int
    decreases s.len() - k,
{
    if k >= s.len() {
        s.len() as int
    } else if marker_at(s, k) {
        k
    } else {
        code_end(s, k + 1)
    }
}

/// A run of digits that cannot be made longer.
pub open spec fn is_run(s: Seq<char>, i: int, j: int) -> bool {
    &&& 0 <= i < j <= s.len()
    &&& all_digits(s.subrange(i, j))
    &&& i > 0 ==> !is_digit(s[i - 1])
    &&& j < s.len() ==> !is_digit(s[j])
}

/// Whether a place is in an anchor: behind a name in angle brackets and before the next
/// semicolon.
pub open spec fn in_anchor(s: Seq<char>, n: int) -> bool
    decreases n,
{
    if n <= 0 {
        false
    } else if mode(s, n - 1) == Mode::Code && s[n - 1] == ';' {
        false
    } else {
        (mode(s, n - 1) == Mode::Code && s[n - 1] == '<') || in_anchor(s, n - 1)
    }
}

/// A character that can stand between the letter of an exponent and its digits.
pub open spec fn is_blank_or_sign(c: char) -> bool {
    c == ' ' || c == '\t' || c == '\r' || c == '\n' || c == '+' || c == '-'
}

/// The place behind the last character before a place that is neither blank nor a sign.
pub open spec fn before_blanks(s: Seq<char>, i: int) -> int
    decreases i,
{
    if i > 0 && is_blank_or_sign(s[i - 1]) {
        before_blanks(s, i - 1)
    } else {
        i
    }
}

/// The place behind the last character before a place that is no digit.
pub open spec fn before_digits(s: Seq<char>, i: int) -> int
    decreases i,
{
    if i > 0 && is_digit(s[i - 1]) {
        before_digits(s, i - 1)
    } else {
        i
    }
}

/// Whether the characters before a place end in those of a real number without an exponent: a
/// digit, a decimal point, and any digits.
pub open spec fn ends_real(s: Seq<char>, i: int) -> bool {
    let point = before_digits(s, i) - 1;
    point > 0 && s[point] == '.' && is_digit(s[point - 1])
}

/// Whether digits at a place are those of the exponent of a real number.
pub open spec fn in_exponent(s: Seq<char>, i: int) -> bool {
    let letter = before_blanks(s, i) - 1;
    letter >= 0 && s[letter] == 'E' && ends_real(s, letter)
}

/// A character behind which digits are part of a name or of a fraction.
pub open spec fn is_joint(c: char) -> bool {
    'A' <= c <= 'Z' || 'a' <= c <= 'z' || c == '_' || c == '#' || c == '@' || c == '.'
}

/// Whether the parser reads a run of digits as an integer of its own. It does so with exponents,
/// and with numbers without a decimal point. In an anchor it reads the digits in front of a
/// decimal point as an integer too.
pub open spec fn is_integer(s: Seq<char>, i: int, j: int) -> bool {
    ||| in_exponent(s, i)
    ||| !(i > 0 && is_joint(s[i - 1])) && !(j < s.len() && s[j] == '.' && !in_anchor(s, i))
}

/// Whether the integers that start before a place fit in 64 bits with a sign.
pub open spec fn integers_fit(s: Seq<char>, n: int) -> bool {
    forall|i: int, j: int| #[trigger]
        is_run(s, i, j) && i < n && mode(s, i) == Mode::Code && is_integer(s, i, j) ==> decimal(
            s.subrange(i, j),
        ) <= i64::MAX
}

/// Whether a text holds nothing that the parser cannot take: up to the end marker, integers and
/// exponents fit in 64 bits with a sign, and lists are not nested too deeply. In a STEP file the
/// parser comes to all of these places. In a text that is none it may stop before them.
pub open spec fn is_parsable(s: Seq<char>) -> bool {
    let end = code_end(s, 0);
    &&& integers_fit(s, end)
    &&& forall|n: int| 0 <= n <= end ==> #[trigger] nesting(s, n) <= MAX_NESTING
}

/// The mode of every place in a text.
fn modes(cs: &Vec<char>) -> (r: Vec<Mode>)
    ensures
        r@.len() == cs@.len(),
        forall|n: int| 0 <= n < cs@.len() ==> #[trigger] r@[n] == mode(cs@, n),
{
    let mut r: Vec<Mode> = Vec::new();
    let mut before = Mode::Code;
    let mut now = Mode::Code;
    for n in 0..cs.len()
        invariant
            r@.len() == n,
            forall|k: int| 0 <= k < n ==> #[trigger] r@[k] == mode(cs@, k),
            now == mode(cs@, n as int),
            n > 0 ==> before == mode(cs@, n - 1),
    {
        r.push(now);
        let c = cs[n];
        let next = match now {
            Mode::Code => if c == '\'' {
                Mode::Text
            } else if c == '<' {
                Mode::Angle
            } else if c == '*' && n > 0 && cs[n - 1] == '/' && before == Mode::Code {
                Mode::Comment
            } else {
                Mode::Code
            },
            Mode::Text => if c == '\'' {
                Mode::Code
            } else {
                Mode::Text
            },
            Mode::Angle => if c == '>' {
                Mode::Code
            } else {
                Mode::Angle
            },
            Mode::Comment => if c == '/' && n > 0 && cs[n - 1] == '*' && before == Mode::Comment {
                Mode::Code
            } else {
                Mode::Comment
            },
        };
        before = now;
        now = next;
    }
    r
}

/// Where the end marker is, or the end of a text.
fn find_end(cs: &Vec<char>, modes: &Vec<Mode>) -> (r: usize)
    requires
        modes@.len() == cs@.len(),
        forall|n: int| 0 <= n < cs@.len() ==> #[trigger] modes@[n] == mode(cs@, n),
    ensures
        r <= cs@.len(),
        r == code_end(cs@, 0),
{
    let marker = text::chars(END_MARKER);
    let mut k: usize = 0;
    while k < cs.len()
        invariant
            modes@.len() == cs@.len(),
            forall|n: int| 0 <= n < cs@.len() ==> #[trigger] modes@[n] == mode(cs@, n),
            marker@ == END_MARKER@,
            k <= cs@.len(),
            code_end(cs@, 0) == code_end(cs@, k as int),
        decreases cs@.len() - k,
    {
        if modes[k] == Mode::Code && stands_at(cs, k, &marker) {
            return k;
        }
        k += 1;
    }
    k
}

/// Whether a word stands at a place.
fn stands_at(cs: &Vec<char>, k: usize, word: &Vec<char>) -> (r: bool)
    requires
        k <= cs@.len(),
    ensures
        r == (k + word@.len() <= cs@.len() && cs@.subrange(k as int, k + word@.len()) == word@),
{
    if word.len() > cs.len() - k {
        return false;
    }
    for i in 0..word.len()
        invariant
            k + word@.len() <= cs@.len() <= usize::MAX,
            forall|j: int| 0 <= j < i ==> cs@[k + j] == #[trigger] word@[j],
    {
        if cs[k + i] != word[i] {
            assert(cs@.subrange(k as int, k + word@.len())[i as int] != word@[i as int]);
            return false;
        }
    }
    assert(cs@.subrange(k as int, k + word@.len()) =~= word@);
    true
}

/// Whether lists before a place are not nested too deeply.
fn nesting_fits(cs: &Vec<char>, modes: &Vec<Mode>, end: usize) -> (r: bool)
    requires
        end <= cs@.len(),
        modes@.len() == cs@.len(),
        forall|n: int| 0 <= n < cs@.len() ==> #[trigger] modes@[n] == mode(cs@, n),
    ensures
        r == forall|n: int| 0 <= n <= end ==> #[trigger] nesting(cs@, n) <= MAX_NESTING,
{
    let mut depth: i128 = 0;
    for n in 0..end
        invariant
            end <= cs@.len(),
            modes@.len() == cs@.len(),
            forall|n: int| 0 <= n < cs@.len() ==> #[trigger] modes@[n] == mode(cs@, n),
            depth == nesting(cs@, n as int),
            -(n as int) <= depth <= MAX_NESTING,
            forall|k: int| 0 <= k <= n ==> #[trigger] nesting(cs@, k) <= MAX_NESTING,
    {
        if modes[n] == Mode::Code {
            if cs[n] == '(' {
                depth = depth + 1;
            } else if cs[n] == ')' {
                depth = depth - 1;
            }
        }
        assert(depth == nesting(cs@, n + 1));
        if depth > MAX_NESTING as i128 {
            return false;
        }
    }
    true
}

/// Whether a character is a decimal digit.
fn digit(c: char) -> (r: bool)
    ensures
        r == is_digit(c),
{
    '0' <= c && c <= '9'
}

/// Whether digits at a place are those of the exponent of a real number.
fn exponent(cs: &Vec<char>, i: usize) -> (r: bool)
    requires
        i <= cs@.len(),
    ensures
        r == in_exponent(cs@, i as int),
{
    let mut k = i;
    while k > 0 && (cs[k - 1] == ' ' || cs[k - 1] == '\t' || cs[k - 1] == '\r' || cs[k - 1] == '\n'
        || cs[k - 1] == '+' || cs[k - 1] == '-')
        invariant
            k <= i <= cs@.len(),
            before_blanks(cs@, i as int) == before_blanks(cs@, k as int),
        decreases k,
    {
        k -= 1;
    }
    if k == 0 || cs[k - 1] != 'E' {
        return false;
    }
    let letter = k - 1;
    let mut k = letter;
    while k > 0 && digit(cs[k - 1])
        invariant
            k <= letter <= cs@.len(),
            before_digits(cs@, letter as int) == before_digits(cs@, k as int),
        decreases k,
    {
        k -= 1;
    }
    k > 1 && cs[k - 1] == '.' && digit(cs[k - 2])
}

/// Whether digits behind a character are part of a name or of a fraction.
fn joint(c: char) -> (r: bool)
    ensures
        r == is_joint(c),
{
    ('A' <= c && c <= 'Z') || ('a' <= c && c <= 'z') || c == '_' || c == '#' || c == '@' || c == '.'
}

proof fn lemma_past_run(s: Seq<char>, i: int, j: int)
    requires
        integers_fit(s, i),
        is_run(s, i, j),
        mode(s, i) == Mode::Code && is_integer(s, i, j) ==> decimal(s.subrange(i, j)) <= i64::MAX,
    ensures
        integers_fit(s, j),
{
    assert forall|a: int, b: int| #[trigger]
        is_run(s, a, b) && a < j && mode(s, a) == Mode::Code && is_integer(s, a, b) implies decimal(
        s.subrange(a, b),
    ) <= i64::MAX by {
        if a > i {
            assert(s.subrange(i, j)[a - 1 - i] == s[a - 1]);
            assert(is_digit(s[a - 1]));
        } else if a == i {
            lemma_same_run(s, a, b, j);
        }
    }
}

proof fn lemma_past_character(s: Seq<char>, i: int)
    requires
        0 <= i < s.len(),
        integers_fit(s, i),
        !is_digit(s[i]),
    ensures
        integers_fit(s, i + 1),
{
    assert forall|a: int, b: int| #[trigger]
        is_run(s, a, b) && a < i + 1 && mode(s, a) == Mode::Code && is_integer(
            s,
            a,
            b,
        ) implies decimal(s.subrange(a, b)) <= i64::MAX by {
        if a == i {
            assert(is_digit(s.subrange(a, b)[0]));
        }
    }
}

proof fn lemma_same_run(s: Seq<char>, a: int, b: int, c: int)
    requires
        is_run(s, a, b),
        is_run(s, a, c),
    ensures
        b == c,
{
    if b < c {
        assert(s.subrange(a, c)[b - a] == s[b]);
    } else if c < b {
        assert(s.subrange(a, b)[c - a] == s[c]);
    }
}

/// Whether the integers before a place fit in 64 bits with a sign.
fn runs_fit(cs: &Vec<char>, modes: &Vec<Mode>, end: usize) -> (r: bool)
    requires
        end <= cs@.len(),
        modes@.len() == cs@.len(),
        forall|n: int| 0 <= n < cs@.len() ==> #[trigger] modes@[n] == mode(cs@, n),
    ensures
        r == integers_fit(cs@, end as int),
{
    let ghost s = cs@;
    let mut anchor = false;
    let mut i: usize = 0;
    while i < end
        invariant
            s == cs@,
            end <= cs@.len(),
            modes@.len() == cs@.len(),
            forall|n: int| 0 <= n < cs@.len() ==> #[trigger] modes@[n] == mode(cs@, n),
            i <= cs@.len(),
            i < cs@.len() && i > 0 ==> !(is_digit(s[i - 1]) && is_digit(s[i as int])),
            anchor == in_anchor(s, i as int),
            integers_fit(s, i as int),
        decreases cs@.len() - i,
    {
        if digit(cs[i]) {
            let mut j: usize = i + 1;
            while j < cs.len() && digit(cs[j])
                invariant
                    s == cs@,
                    i < j <= cs@.len(),
                    forall|k: int| i <= k < j ==> is_digit(#[trigger] s[k]),
                    in_anchor(s, i as int) == in_anchor(s, j as int),
                decreases cs@.len() - j,
            {
                j += 1;
            }
            assert(is_run(s, i as int, j as int));
            if modes[i] == Mode::Code && (exponent(cs, i) || !(i > 0 && joint(cs[i - 1])) && !(j
                < cs.len() && cs[j] == '.' && !anchor)) {
                let run = slice_subrange(cs.as_slice(), i, j);
                assert(run@ =~= s.subrange(i as int, j as int));
                assert(run@[0] == s[i as int]);
                if parse_whole(run, i64::MAX as u64).is_none() {
                    assert(is_integer(s, i as int, j as int));
                    return false;
                }
            }
            proof {
                lemma_past_run(s, i as int, j as int);
            }
            i = j;
        } else {
            if modes[i] == Mode::Code {
                if cs[i] == ';' {
                    anchor = false;
                } else if cs[i] == '<' {
                    anchor = true;
                }
            }
            proof {
                lemma_past_character(s, i as int);
            }
            i += 1;
        }
    }
    true
}

/// Whether a text holds nothing that the parser cannot take.
fn parsable(s: &str) -> (r: bool)
    ensures
        r == is_parsable(s@),
{
    let cs = text::chars(s);
    let modes = modes(&cs);
    let end = find_end(&cs, &modes);
    nesting_fits(&cs, &modes, end) && runs_fit(&cs, &modes, end)
}

// ---------------------------------------------------------------------------
// The parser
// ---------------------------------------------------------------------------

/// A STEP file as the parser reads it.
#[verifier::external_type_specification]
#[verifier::external_body]
pub struct ExExchange(Exchange);

/// A data section.
#[verifier::external_type_specification]
#[verifier::external_body]
pub struct ExDataSection(DataSection);

/// An instance in a data section.
#[verifier::external_type_specification]
#[verifier::external_body]
pub struct ExEntityInstance(EntityInstance);

/// A record of an instance.
#[verifier::external_type_specification]
#[verifier::external_body]
pub struct ExRecord(SyntaxRecord);

/// A parameter of a record.
#[verifier::external_type_specification]
#[verifier::external_body]
pub struct ExParameter(Parameter);

/// The data sections that `ruststep::parser::exchange::exchange_file` finds in a text, each with its instances in
/// order, or nothing when the text is no STEP file.
pub uninterp spec fn parsed_sections(text: Seq<char>) -> Option<Seq<Seq<EntityView>>>;

/// The data sections of a STEP file.
pub uninterp spec fn sections(exchange: Exchange) -> Seq<Seq<EntityView>>;

/// The instances of a data section.
pub uninterp spec fn section_value(section: DataSection) -> Seq<EntityView>;

/// What an instance says.
pub uninterp spec fn instance_value(instance: EntityInstance) -> EntityView;

/// What a record says.
pub uninterp spec fn record_value(record: SyntaxRecord) -> RecordView;

/// What a parameter says.
pub uninterp spec fn parameter_value(parameter: Parameter) -> ArgumentView;

/// Where `ruststep::parser::exchange::exchange_file` gives up on a text that is no STEP file: how
/// many bytes of the text are left at the place that it cannot read, and then at the places where
/// what it tried to read there starts.
pub uninterp spec fn parse_rests(text: Seq<char>) -> Seq<usize>;

/// What the error of `ruststep::parser::parse` says of a text that is no STEP file.
pub uninterp spec fn parse_report(text: Seq<char>) -> Seq<char>;

/// `ruststep::parser::exchange::exchange_file`. The data sections are `parsed_sections` of the
/// text. When there are none, what is left of the text at each place that the error names is
/// `parse_rests` of it.
#[verifier::external_body]
fn parse(text: &str) -> (r: Result<Exchange, Vec<usize>>)
    requires
        is_parsable(text@),
    ensures
        match r {
            Ok(exchange) => parsed_sections(text@) == Some(sections(exchange)),
            Err(rests) => parsed_sections(text@) is None && rests@ == parse_rests(text@)
                && forall|i: int|
                0 <= i < rests@.len() ==> #[trigger] rests@[i] <= encode_utf8(text@).len(),
        },
{
    let mut rests = Vec::new();
    match ruststep::parser::exchange::exchange_file(text) {
        Ok((_, exchange)) => Ok(exchange),
        Err(e) => {
            let _ = e.map(|e| rests.extend(e.errors.iter().map(|(rest, _)| rest.len())));
            Err(rests)
        }
    }
}

/// `ruststep::parser::parse`, for what its error says. It is `parse_report` of the text. The error
/// points at each place that it names with a mark as far along as the place is in its line, which
/// the standard library can write for a limited number of columns only.
#[verifier::external_body]
fn report(text: &str) -> (r: String)
    requires
        is_parsable(text@),
        parsed_sections(text@) is None,
        is_reportable(encode_utf8(text@), parse_rests(text@)),
    ensures
        r@ == parse_report(text@),
{
    ruststep::parser::parse(text).err().map(|e| e.to_string()).unwrap_or_default()
}

/// The data sections of an `Exchange`, which are its field `data`.
#[verifier::external_body]
fn data_sections(exchange: &Exchange) -> (r: &[DataSection])
    ensures
        r@.map_values(|s: DataSection| section_value(s)) == sections(*exchange),
{
    exchange.data.as_slice()
}

/// The instances of a `DataSection`, which are its field `entities`.
#[verifier::external_body]
fn instances(section: &DataSection) -> (r: &[EntityInstance])
    ensures
        r@.map_values(|e: EntityInstance| instance_value(e)) == section_value(*section),
{
    section.entities.as_slice()
}

/// The number and the records of an `EntityInstance`, and whether it is a simple one, which has
/// one record.
#[verifier::external_body]
fn instance_parts(instance: &EntityInstance) -> (r: (u64, bool, &[SyntaxRecord]))
    ensures
        r.1 ==> r.2@.len() == 1,
        instance_value(*instance) == (if r.1 {
            EntityView::Simple { id: r.0, record: record_value(r.2@[0]) }
        } else {
            EntityView::Complex {
                id: r.0,
                records: r.2@.map_values(|x: SyntaxRecord| record_value(x)),
            }
        }),
{
    match instance {
        EntityInstance::Simple { id, record } => (*id, true, std::slice::from_ref(record)),
        EntityInstance::Complex { id, subsuper } => (*id, false, subsuper.0.as_slice()),
    }
}

/// The name of a `Record`, and its parameters when they are a list.
#[verifier::external_body]
fn record_parts(record: &SyntaxRecord) -> (r: (String, &[Parameter]))
    ensures
        record_value(*record) == (RecordView {
            name: r.0@,
            arguments: r.1@.map_values(|p: Parameter| parameter_value(p)),
        }),
{
    let parameters: &[Parameter] = match &record.parameter {
        Parameter::List(parameters) => parameters.as_slice(),
        _ => &[],
    };
    (record.name.clone(), parameters)
}

/// A `Parameter`, as far as it is a reference, a list or an enumeration value. The values of a
/// list are taken as far as they are references or numbers, real numbers as their bit patterns.
#[verifier::external_body]
fn argument(parameter: &Parameter) -> (r: Argument)
    ensures
        parameter_value(*parameter) == r@,
{
    let item = |p: &Parameter| match p {
        Parameter::Ref(Name::Entity(id)) => Item::Ref(*id),
        Parameter::Integer(n) => Item::Integer(*n),
        Parameter::Real(v) => Item::Real(v.to_bits()),
        _ => Item::Other,
    };
    match parameter {
        Parameter::Ref(Name::Entity(id)) => Argument::Ref(*id),
        Parameter::List(items) => Argument::List(items.iter().map(item).collect()),
        Parameter::Enumeration(e) => Argument::Enumeration(e.clone()),
        _ => Argument::Other,
    }
}

// ---------------------------------------------------------------------------
// Reports
// ---------------------------------------------------------------------------

/// The standard library writes marks in columns up to this one.
pub const MAX_COLUMN: usize = 65535;

/// Where the line of a place starts.
pub open spec fn line_start(bytes: Seq<u8>, n: int) -> int
    decreases n,
{
    if n <= 0 {
        0
    } else if bytes[n - 1] == 10 {
        n
    } else {
        line_start(bytes, n - 1)
    }
}

/// The column of a place in its line. The first is column one.
pub open spec fn column(bytes: Seq<u8>, n: int) -> int {
    n - line_start(bytes, n) + 1
}

/// Whether marks can be written below the places behind which some bytes of a text are left.
pub open spec fn is_reportable(bytes: Seq<u8>, rests: Seq<usize>) -> bool {
    forall|i: int|
        0 <= i < rests.len() ==> column(bytes, bytes.len() - #[trigger] rests[i]) <= MAX_COLUMN
}

/// Whether an error tells where the parser gives up on a text and, as far as that can be reported,
/// what it says.
pub open spec fn is_parse_error(text: Seq<char>, rests: Seq<usize>, report: Option<String>) -> bool {
    &&& rests == parse_rests(text)
    &&& match report {
        Some(report) => is_reportable(encode_utf8(text), rests) && report@ == parse_report(text),
        None => !is_reportable(encode_utf8(text), rests),
    }
}

/// Whether marks can be written below the places behind which some bytes of a text are left.
fn reportable(bytes: &[u8], rests: &Vec<usize>) -> (r: bool)
    requires
        forall|i: int| 0 <= i < rests@.len() ==> #[trigger] rests@[i] <= bytes@.len(),
    ensures
        r == is_reportable(bytes@, rests@),
{
    for i in 0..rests.len()
        invariant
            forall|i: int| 0 <= i < rests@.len() ==> #[trigger] rests@[i] <= bytes@.len(),
            forall|j: int|
                0 <= j < i ==> column(bytes@, bytes@.len() - #[trigger] rests@[j]) <= MAX_COLUMN,
    {
        let place = bytes.len() - rests[i];
        let mut start = place;
        while start > 0 && bytes[start - 1] != 10
            invariant
                start <= place <= bytes@.len(),
                line_start(bytes@, place as int) == line_start(bytes@, start as int),
            decreases start,
        {
            start -= 1;
        }
        if place - start >= MAX_COLUMN {
            assert(column(bytes@, bytes@.len() - rests@[i as int]) > MAX_COLUMN);
            return false;
        }
    }
    true
}

// ---------------------------------------------------------------------------
// Entities
// ---------------------------------------------------------------------------

/// Reads a record.
fn record(from: &SyntaxRecord) -> (r: Record)
    ensures
        r@ == record_value(*from),
{
    let (name, parameters) = record_parts(from);
    let mut arguments: Vec<Argument> = Vec::new();
    for i in 0..parameters.len()
        invariant
            arguments@.len() == i,
            forall|j: int| 0 <= j < i ==> (#[trigger] arguments@[j])@ == parameter_value(
                parameters@[j],
            ),
    {
        arguments.push(argument(&parameters[i]));
    }
    let r = Record { name, arguments };
    assert(arguments_view(r.arguments@) =~= parameters@.map_values(
        |p: Parameter| parameter_value(p),
    ));
    r
}

/// Reads an instance.
fn entity(from: &EntityInstance) -> (r: Entity)
    ensures
        r@ == instance_value(*from),
{
    let (id, simple, parts) = instance_parts(from);
    if simple {
        Entity::Simple { id, record: record(&parts[0]) }
    } else {
        let mut records: Vec<Record> = Vec::new();
        for i in 0..parts.len()
            invariant
                records@.len() == i,
                forall|j: int| 0 <= j < i ==> (#[trigger] records@[j])@ == record_value(parts@[j]),
        {
            records.push(record(&parts[i]));
        }
        assert(records_view(records@) =~= parts@.map_values(
            |x: SyntaxRecord| record_value(x),
        ));
        Entity::Complex { id, records }
    }
}

/// Reads the instances of a data section.
fn entities(section: &DataSection) -> (r: Vec<Entity>)
    ensures
        entities_view(r@) == section_value(*section),
{
    let from = instances(section);
    let mut r: Vec<Entity> = Vec::new();
    for i in 0..from.len()
        invariant
            r@.len() == i,
            forall|j: int| 0 <= j < i ==> (#[trigger] r@[j])@ == instance_value(from@[j]),
    {
        r.push(entity(&from[i]));
    }
    assert(entities_view(r@) =~= from@.map_values(|e: EntityInstance| instance_value(e)));
    r
}

/// Why a STEP file cannot be read.
pub enum StepError {
    /// An integer or an exponent does not fit in 64 bits, or lists are nested too deeply.
    Unsupported,
    /// The text is no STEP file. `rests` holds how many bytes of the text are left at the place
    /// that cannot be read, and then at the places where what was tried to read there starts.
    /// `report` says what is wrong, unless such a place is too far along its line.
    Parse { rests: Vec<usize>, report: Option<String> },
    /// There is no DATA section.
    NoData,
    /// The file contains no triangles.
    NoTriangles,
}

/// Reads the text of a STEP file. STEP is meant to be ASCII, but some exporters write strings in
/// other encodings, so what is not UTF-8 is replaced.
pub fn parse_step(bytes: &[u8]) -> (r: Result<Exchange, StepError>)
    ensures
        ({
            let text = utf8_lossy(bytes@);
            match r {
                Ok(exchange) => is_parsable(text) && parsed_sections(text) == Some(
                    sections(exchange),
                ),
                Err(StepError::Unsupported) => !is_parsable(text),
                Err(StepError::Parse { rests, report }) => is_parsable(text) && parsed_sections(
                    text,
                ) is None && is_parse_error(text, rests@, report),
                Err(_) => false,
            }
        }),
{
    let text = text::from_utf8_lossy(bytes);
    if !parsable(text.as_str()) {
        return Err(StepError::Unsupported);
    }
    match parse(text.as_str()) {
        Ok(exchange) => Ok(exchange),
        Err(rests) => {
            let report = if reportable(text.as_str().as_bytes(), &rests) {
                Some(report(text.as_str()))
            } else {
                None
            };
            Err(StepError::Parse { rests, report })
        },
    }
}

impl Assembly {
    /// The entities of the first data section of a STEP file.
    pub fn of(exchange: &Exchange) -> (r: Result<Assembly, StepError>)
        ensures
            match r {
                Ok(assembly) => assembly.wf() && sections(*exchange).len() > 0 && assembly@
                    == last_definitions(
                    sections(*exchange)[0],
                    sections(*exchange)[0].len() as int,
                ),
                Err(StepError::NoData) => sections(*exchange).len() == 0,
                Err(_) => false,
            },
    {
        let data = data_sections(exchange);
        assert(data@.len() == sections(*exchange).len());
        if data.len() == 0 {
            return Err(StepError::NoData);
        }
        assert(sections(*exchange)[0] == section_value(data@[0]));
        let es = entities(&data[0]);
        assert(entities_view(es@).len() == es@.len());
        Ok(Assembly::new(es))
    }
}

} // verus!
