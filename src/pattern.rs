//! The pattern notation and its parser.
//!
//! ```text
//! pattern   := item+
//! item      := rest | note | chord
//! rest      := 'r' ws*
//! note      := key velocity? ws*
//! chord     := '(' ws* note+ ')' ws*
//! key       := 'm' | 'c' | 'h' | 'b' | 's' | digits
//! velocity  := '>' | ','
//! ```
//!
//! The alternatives are tried in order and the first that matches wins, so the
//! parser is deterministic; the spec functions below describe it position by
//! position over the characters of the input.

use vstd::prelude::*;
use vstd::std_specs::iter::IteratorSpec;
use vstd::string::{StrSliceExecFns, StringExecFns};

verus! {

/// Intensity class of a note; the sequencer maps it to a numeric velocity.
#[derive(Debug, Clone, Copy, PartialEq, Eq, Structural)]
pub enum Velocity {
    Default,
    Accented,
    Ghosted,
}

/// A single note: a pitch and the intensity class it is played with.
#[derive(Debug, Clone, Copy, PartialEq, Eq, Structural)]
pub struct Note {
    pub key: u8,
    pub vel: Velocity,
}

/// One step of a pattern: silence, or one or more notes played together.
#[derive(Debug, Clone, PartialEq, Eq)]
pub enum PatternItem {
    Rest,
    Notes(Vec<Note>),
}

/// The mathematical value of a [`PatternItem`].
pub enum ItemModel {
    Rest,
    Notes(Seq<Note>),
}

impl View for PatternItem {
    type V = ItemModel;

    open spec fn view(&self) -> ItemModel {
        match self {
            PatternItem::Rest => ItemModel::Rest,
            PatternItem::Notes(v) => ItemModel::Notes(v@),
        }
    }
}

/// The models of a sequence of pattern items.
pub open spec fn items_model(v: Seq<PatternItem>) -> Seq<ItemModel> {
    v.map_values(|p: PatternItem| p@)
}

/// What the parser expected at the position where it gave up.
#[derive(Debug, Clone, Copy, PartialEq, Eq, Structural)]
pub enum FailureCode {
    /// A specific character (`(` or `)`) was expected.
    ExpectedChar,
    /// A key was expected, and not even a digit was found.
    ExpectedDigit,
    /// A run of digits was found whose value does not fit a `u8`.
    KeyOutOfRange,
}

/// Why a pattern was rejected. Positions count characters, not bytes.
#[derive(Debug, Clone, PartialEq, Eq)]
pub enum ParseError {
    /// No item could be read at the start; `input` is what was left at `at`,
    /// the position where the grammar failed.
    Grammar { at: usize, code: FailureCode, input: String },
    /// Items were read up to `at`, but `rest` is left over.
    Trailing { at: usize, rest: String },
    /// The input holds no item at all: it is empty or only whitespace.
    Empty,
}

/// The mathematical value of a parse failure.
pub enum Rejection {
    Grammar(int, FailureCode),
    Trailing(int),
    Empty,
}

pub open spec fn is_space(c: char) -> bool {
    c == ' ' || c == '\t' || c == '\r' || c == '\n'
}

pub open spec fn is_digit(c: char) -> bool {
    48 <= (c as u32) && (c as u32) <= 57
}

/// The first position at or after `i` that does not hold whitespace.
pub open spec fn skip_space(s: Seq<char>, i: int) -> int
    decreases s.len() - i,
{
    if 0 <= i < s.len() && is_space(s[i]) {
        skip_space(s, i + 1)
    } else {
        i
    }
}

/// The end of the run of decimal digits that starts at `i`.
pub open spec fn digits_end(s: Seq<char>, i: int) -> int
    decreases s.len() - i,
{
    if 0 <= i < s.len() && is_digit(s[i]) {
        digits_end(s, i + 1)
    } else {
        i
    }
}

/// The value of a run of decimal digits.
pub open spec fn decimal(d: Seq<char>) -> nat
    decreases d.len(),
{
    if d.len() == 0 {
        0
    } else {
        decimal(d.drop_last()) * 10 + ((d.last() as u32) - 48) as nat
    }
}

/// The pitch that a one-letter key stands for.
pub open spec fn shorthand(c: char) -> Option<u8> {
    if c == 'm' {
        Some(32u8)
    } else if c == 'c' {
        Some(75u8)
    } else if c == 'h' {
        Some(42u8)
    } else if c == 'b' {
        Some(35u8)
    } else if c == 's' {
        Some(38u8)
    } else {
        None
    }
}

/// A key at `i`: the pitch and the position after it, or where and why it failed.
///
/// A run of digits is read whole and accepted when its value fits a `u8`; it is
/// not narrowed to the 0..=127 that MIDI keys take, which is left to the caller
/// that writes the notes out.
pub open spec fn key_at(s: Seq<char>, i: int) -> Result<(u8, int), (int, FailureCode)> {
    if 0 <= i < s.len() && shorthand(s[i]) is Some {
        Ok((shorthand(s[i])->0, i + 1))
    } else {
        let e = digits_end(s, i);
        if e == i {
            Err((i, FailureCode::ExpectedDigit))
        } else if decimal(s.subrange(i, e)) <= 255 {
            Ok((decimal(s.subrange(i, e)) as u8, e))
        } else {
            Err((i, FailureCode::KeyOutOfRange))
        }
    }
}

/// The optional velocity suffix at `i`, and the position after it.
pub open spec fn velocity_at(s: Seq<char>, i: int) -> (Velocity, int) {
    if 0 <= i < s.len() && s[i] == '>' {
        (Velocity::Accented, i + 1)
    } else if 0 <= i < s.len() && s[i] == ',' {
        (Velocity::Ghosted, i + 1)
    } else {
        (Velocity::Default, i)
    }
}

/// A note at `i` with the whitespace after it.
pub open spec fn note_at(s: Seq<char>, i: int) -> Result<(Note, int), (int, FailureCode)> {
    match key_at(s, i) {
        Err(f) => Err(f),
        Ok((k, j)) => {
            let (v, j2) = velocity_at(s, j);
            Ok((Note { key: k, vel: v }, skip_space(s, j2)))
        },
    }
}

/// As many notes as can be read from `i` on, and the position after them.
pub open spec fn notes_from(s: Seq<char>, i: int) -> (Seq<Note>, int)
    decreases s.len() - i,
{
    match note_at(s, i) {
        Ok((n, j)) => {
            // every note consumes at least its key
            if i < j <= s.len() {
                let (ns, e) = notes_from(s, j);
                (seq![n] + ns, e)
            } else {
                (seq![], i)
            }
        },
        Err(_) => (seq![], i),
    }
}

/// A parenthesised chord of one or more notes at `i`.
pub open spec fn chord_at(s: Seq<char>, i: int) -> Result<(Seq<Note>, int), (int, FailureCode)> {
    if 0 <= i < s.len() && s[i] == '(' {
        match note_at(s, skip_space(s, i + 1)) {
            Err(f) => Err(f),
            Ok((n, j)) => {
                let (ns, e) = notes_from(s, j);
                if 0 <= e < s.len() && s[e] == ')' {
                    Ok((seq![n] + ns, skip_space(s, e + 1)))
                } else {
                    Err((e, FailureCode::ExpectedChar))
                }
            },
        }
    } else {
        Err((i, FailureCode::ExpectedChar))
    }
}

/// A rest at `i` with the whitespace after it.
pub open spec fn rest_at(s: Seq<char>, i: int) -> Result<int, (int, FailureCode)> {
    if 0 <= i < s.len() && s[i] == 'r' {
        Ok(skip_space(s, i + 1))
    } else {
        Err((i, FailureCode::ExpectedChar))
    }
}

/// One item at `i`: a rest, else a note, else a chord. When all three fail,
/// the failure reported is the chord's.
pub open spec fn item_at(s: Seq<char>, i: int) -> Result<(ItemModel, int), (int, FailureCode)> {
    match rest_at(s, i) {
        Ok(j) => Ok((ItemModel::Rest, j)),
        Err(_) => match note_at(s, i) {
            Ok((n, j)) => Ok((ItemModel::Notes(seq![n]), j)),
            Err(_) => match chord_at(s, i) {
                Ok((ns, j)) => Ok((ItemModel::Notes(ns), j)),
                Err(f) => Err(f),
            },
        },
    }
}

/// As many items as can be read from `i` on, and the position after them.
pub open spec fn items_from(s: Seq<char>, i: int) -> (Seq<ItemModel>, int)
    decreases s.len() - i,
{
    match item_at(s, i) {
        Ok((it, j)) => {
            // every item consumes at least one character
            if i < j <= s.len() {
                let (its, e) = items_from(s, j);
                (seq![it] + its, e)
            } else {
                (seq![], i)
            }
        },
        Err(_) => (seq![], i),
    }
}

/// What parsing `s` yields: the items, when the whole input is one or more
/// items; otherwise the reason for the rejection.
pub open spec fn parse_spec(s: Seq<char>) -> Result<Seq<ItemModel>, Rejection> {
    if skip_space(s, 0) >= s.len() {
        Err(Rejection::Empty)
    } else {
        match item_at(s, 0) {
            Err((p, code)) => Err(Rejection::Grammar(p, code)),
            Ok((it, j)) => {
                let (its, e) = items_from(s, j);
                if e == s.len() {
                    Ok(seq![it] + its)
                } else {
                    Err(Rejection::Trailing(e))
                }
            },
        }
    }
}


fn is_space_char(c: char) -> (r: bool)
    ensures
        r == is_space(c),
{
    c == ' ' || c == '\t' || c == '\r' || c == '\n'
}

fn skip_spaces(s: &Vec<char>, i: usize) -> (r: usize)
    requires
        i <= s.len(),
    ensures
        r == skip_space(s@, i as int),
        i <= r <= s.len(),
{
    let mut j = i;
    while j < s.len() && is_space_char(s[j])
        invariant
            i <= j <= s.len(),
            skip_space(s@, j as int) == skip_space(s@, i as int),
        decreases s.len() - j,
    {
        j = j + 1;
    }
    j
}

fn key_at_exec(s: &Vec<char>, i: usize) -> (r: Result<(u8, usize), (usize, FailureCode)>)
    requires
        i <= s.len(),
    ensures
        match r {
            Ok((k, j)) => key_at(s@, i as int) == Ok::<(u8, int), (int, FailureCode)>(
                (k, j as int),
            ) && i < j <= s.len(),
            Err((p, c)) => key_at(s@, i as int) == Err::<(u8, int), (int, FailureCode)>(
                (p as int, c),
            ) && p <= s.len(),
        },
{
    if i < s.len() {
        let c = s[i];
        if c == 'm' {
            return Ok((32, i + 1));
        } else if c == 'c' {
            return Ok((75, i + 1));
        } else if c == 'h' {
            return Ok((42, i + 1));
        } else if c == 'b' {
            return Ok((35, i + 1));
        } else if c == 's' {
            return Ok((38, i + 1));
        }
    }
    let mut j = i;
    let mut value: u32 = 0;
    let mut too_big = false;
    while j < s.len() && 48 <= (s[j] as u32) && (s[j] as u32) <= 57
        invariant
            i <= j <= s.len(),
            digits_end(s@, j as int) == digits_end(s@, i as int),
            too_big <==> decimal(s@.subrange(i as int, j as int)) > 255,
            !too_big ==> value == decimal(s@.subrange(i as int, j as int)),
            value <= 255,
        decreases s.len() - j,
    {
        let d = (s[j] as u32) - 48;
        proof {
            let sub = s@.subrange(i as int, j + 1);
            assert(sub.drop_last() =~= s@.subrange(i as int, j as int));
            assert(sub.last() == s@[j as int]);
        }
        if !too_big {
            if value * 10 + d > 255 {
                too_big = true;
            } else {
                value = value * 10 + d;
            }
        }
        j = j + 1;
    }
    if j == i {
        Err((i, FailureCode::ExpectedDigit))
    } else if too_big {
        Err((i, FailureCode::KeyOutOfRange))
    } else {
        Ok((value as u8, j))
    }
}

fn velocity_at_exec(s: &Vec<char>, i: usize) -> (r: (Velocity, usize))
    requires
        i <= s.len(),
    ensures
        velocity_at(s@, i as int) == (r.0, r.1 as int),
        i <= r.1 <= s.len(),
{
    if i < s.len() && s[i] == '>' {
        (Velocity::Accented, i + 1)
    } else if i < s.len() && s[i] == ',' {
        (Velocity::Ghosted, i + 1)
    } else {
        (Velocity::Default, i)
    }
}

fn note_at_exec(s: &Vec<char>, i: usize) -> (r: Result<(Note, usize), (usize, FailureCode)>)
    requires
        i <= s.len(),
    ensures
        match r {
            Ok((n, j)) => note_at(s@, i as int) == Ok::<(Note, int), (int, FailureCode)>(
                (n, j as int),
            ) && i < j <= s.len(),
            Err((p, c)) => note_at(s@, i as int) == Err::<(Note, int), (int, FailureCode)>(
                (p as int, c),
            ) && p <= s.len(),
        },
{
    match key_at_exec(s, i) {
        Err(f) => Err(f),
        Ok((k, j)) => {
            let (v, j2) = velocity_at_exec(s, j);
            let e = skip_spaces(s, j2);
            Ok((Note { key: k, vel: v }, e))
        },
    }
}

fn notes_from_exec(s: &Vec<char>, i: usize) -> (r: (Vec<Note>, usize))
    requires
        i <= s.len(),
    ensures
        notes_from(s@, i as int) == (r.0@, r.1 as int),
        i <= r.1 <= s.len(),
{
    let mut notes: Vec<Note> = Vec::new();
    let mut j = i;
    loop
        invariant
            i <= j <= s.len(),
            notes_from(s@, i as int).0 == notes@ + notes_from(s@, j as int).0,
            notes_from(s@, i as int).1 == notes_from(s@, j as int).1,
        decreases s.len() - j,
    {
        match note_at_exec(s, j) {
            Ok((n, k)) => {
                proof {
                    assert(notes@.push(n) + notes_from(s@, k as int).0 =~= notes@ + (seq![n]
                        + notes_from(s@, k as int).0));
                }
                notes.push(n);
                j = k;
            },
            Err(_) => {
                proof {
                    assert(notes@ + seq![] =~= notes@);
                }
                return (notes, j);
            },
        }
    }
}

fn chord_at_exec(s: &Vec<char>, i: usize) -> (r: Result<(Vec<Note>, usize), (usize, FailureCode)>)
    requires
        i <= s.len(),
    ensures
        match r {
            Ok((ns, j)) => chord_at(s@, i as int) == Ok::<(Seq<Note>, int), (int, FailureCode)>(
                (ns@, j as int),
            ) && i < j <= s.len(),
            Err((p, c)) => chord_at(s@, i as int) == Err::<(Seq<Note>, int), (int, FailureCode)>(
                (p as int, c),
            ) && p <= s.len(),
        },
{
    if i < s.len() && s[i] == '(' {
        let start = skip_spaces(s, i + 1);
        match note_at_exec(s, start) {
            Err(f) => Err(f),
            Ok((n, j)) => {
                let (rest, e) = notes_from_exec(s, j);
                if e < s.len() && s[e] == ')' {
                    let mut notes: Vec<Note> = Vec::new();
                    notes.push(n);
                    let mut rest = rest;
                    notes.append(&mut rest);
                    proof {
                        assert(notes@ =~= seq![n] + notes_from(s@, j as int).0);
                    }
                    let end = skip_spaces(s, e + 1);
                    Ok((notes, end))
                } else {
                    Err((e, FailureCode::ExpectedChar))
                }
            },
        }
    } else {
        Err((i, FailureCode::ExpectedChar))
    }
}

fn rest_at_exec(s: &Vec<char>, i: usize) -> (r: Result<usize, (usize, FailureCode)>)
    requires
        i <= s.len(),
    ensures
        match r {
            Ok(j) => rest_at(s@, i as int) == Ok::<int, (int, FailureCode)>(j as int) && i < j
                <= s.len(),
            Err((p, c)) => rest_at(s@, i as int) == Err::<int, (int, FailureCode)>((p as int, c))
                && p <= s.len(),
        },
{
    if i < s.len() && s[i] == 'r' {
        Ok(skip_spaces(s, i + 1))
    } else {
        Err((i, FailureCode::ExpectedChar))
    }
}

fn item_at_exec(s: &Vec<char>, i: usize) -> (r: Result<(PatternItem, usize), (usize, FailureCode)>)
    requires
        i <= s.len(),
    ensures
        match r {
            Ok((it, j)) => item_at(s@, i as int) == Ok::<(ItemModel, int), (int, FailureCode)>(
                (it@, j as int),
            ) && i < j <= s.len(),
            Err((p, c)) => item_at(s@, i as int) == Err::<(ItemModel, int), (int, FailureCode)>(
                (p as int, c),
            ) && p <= s.len(),
        },
{
    if let Ok(j) = rest_at_exec(s, i) {
        return Ok((PatternItem::Rest, j));
    }
    match note_at_exec(s, i) {
        Ok((n, j)) => {
            let mut notes: Vec<Note> = Vec::new();
            notes.push(n);
            proof {
                assert(notes@ =~= seq![n]);
            }
            Ok((PatternItem::Notes(notes), j))
        },
        Err(_) => match chord_at_exec(s, i) {
            Ok((ns, j)) => Ok((PatternItem::Notes(ns), j)),
            Err(f) => Err(f),
        },
    }
}

fn items_from_exec(s: &Vec<char>, i: usize, items: &mut Vec<PatternItem>) -> (r: usize)
    requires
        i <= s.len(),
    ensures
        items_model(final(items)@) == items_model(old(items)@) + items_from(s@, i as int).0,
        items_from(s@, i as int).1 == r as int,
        i <= r <= s.len(),
{
    let mut j = i;
    loop
        invariant
            i <= j <= s.len(),
            items_model(items@) + items_from(s@, j as int).0 == items_model(old(items)@)
                + items_from(s@, i as int).0,
            items_from(s@, i as int).1 == items_from(s@, j as int).1,
        decreases s.len() - j,
    {
        match item_at_exec(s, j) {
            Ok((it, k)) => {
                proof {
                    assert(items_model(items@.push(it)) =~= items_model(items@).push(it@));
                    assert(items_model(items@).push(it@) + items_from(s@, k as int).0
                        =~= items_model(items@) + (seq![it@] + items_from(s@, k as int).0));
                }
                items.push(it);
                j = k;
            },
            Err(_) => {
                proof {
                    assert(items_model(items@) + seq![] =~= items_model(items@));
                }
                return j;
            },
        }
    }
}

/// The characters of `s`, in order.
fn chars_of(s: &str) -> (r: Vec<char>)
    ensures
        r@ == s@,
{
    broadcast use vstd::string::axiom_spec_iter, vstd::string::next_postcondition;

    let mut out: Vec<char> = Vec::new();
    let mut it = s.chars();
    loop
        invariant
            out@ + it.remaining() == s@,
            it.decrease() is Some,
        decreases it.decrease()->0,
    {
        match it.next() {
            Some(c) => {
                proof {
                    assert(out@.push(c) + it.remaining() =~= s@);
                }
                out.push(c);
            },
            None => {
                assert(out@ =~= s@);
                return out;
            },
        }
    }
}

/// What is left of `s` from character `j` on.
fn remainder(s: &str, n: usize, j: usize) -> (r: String)
    requires
        n == s@.len(),
        j <= n,
    ensures
        r@ == s@.skip(j as int),
{
    let r = String::from_str(s.substring_char(j, n));
    proof {
        assert(s@.subrange(j as int, n as int) =~= s@.skip(j as int));
    }
    r
}

/// Reads a rest, and the whitespace after it, at the start of `s`.
/// Returns what is left and the item, or where and why it failed.
pub fn rest(s: &str) -> (r: Result<(String, PatternItem), (usize, FailureCode)>)
    ensures
        match r {
            Ok((left, it)) => rest_at(s@, 0) == Ok::<int, (int, FailureCode)>(
                s@.len() - left@.len(),
            ) && left@ == s@.skip(s@.len() - left@.len()) && it == PatternItem::Rest,
            Err((p, c)) => rest_at(s@, 0) == Err::<int, (int, FailureCode)>((p as int, c)),
        },
{
    let chars = chars_of(s);
    match rest_at_exec(&chars, 0) {
        Ok(j) => Ok((remainder(s, chars.len(), j), PatternItem::Rest)),
        Err(f) => Err(f),
    }
}

/// Reads a key at the start of `s`.
/// Returns what is left and the pitch, or where and why it failed.
pub fn key(s: &str) -> (r: Result<(String, u8), (usize, FailureCode)>)
    ensures
        match r {
            Ok((left, k)) => key_at(s@, 0) == Ok::<(u8, int), (int, FailureCode)>(
                (k, s@.len() - left@.len()),
            ) && left@ == s@.skip(s@.len() - left@.len()),
            Err((p, c)) => key_at(s@, 0) == Err::<(u8, int), (int, FailureCode)>((p as int, c)),
        },
{
    let chars = chars_of(s);
    match key_at_exec(&chars, 0) {
        Ok((k, j)) => Ok((remainder(s, chars.len(), j), k)),
        Err(f) => Err(f),
    }
}

/// Reads the optional velocity suffix at the start of `s`; this never fails.
/// Returns what is left and the intensity class.
pub fn velocity(s: &str) -> (r: Result<(String, Velocity), (usize, FailureCode)>)
    ensures
        r is Ok,
        match r {
            Ok((left, v)) => velocity_at(s@, 0) == (v, s@.len() - left@.len()) && left@ == s@.skip(
                s@.len() - left@.len(),
            ),
            Err(_) => false,
        },
{
    let chars = chars_of(s);
    let (v, j) = velocity_at_exec(&chars, 0);
    Ok((remainder(s, chars.len(), j), v))
}

/// Reads a note, and the whitespace after it, at the start of `s`.
/// Returns what is left and the note, or where and why it failed.
pub fn note(s: &str) -> (r: Result<(String, Note), (usize, FailureCode)>)
    ensures
        match r {
            Ok((left, n)) => note_at(s@, 0) == Ok::<(Note, int), (int, FailureCode)>(
                (n, s@.len() - left@.len()),
            ) && left@ == s@.skip(s@.len() - left@.len()),
            Err((p, c)) => note_at(s@, 0) == Err::<(Note, int), (int, FailureCode)>(
                (p as int, c),
            ),
        },
{
    let chars = chars_of(s);
    match note_at_exec(&chars, 0) {
        Ok((n, j)) => Ok((remainder(s, chars.len(), j), n)),
        Err(f) => Err(f),
    }
}

/// Parses a whole pattern.
///
/// Succeeds exactly when the input is one or more items with nothing left
/// over; otherwise says where and why it failed.
pub fn parse(s: &str) -> (r: Result<Vec<PatternItem>, ParseError>)
    ensures
        match r {
            Ok(v) => parse_spec(s@) == Ok::<Seq<ItemModel>, Rejection>(items_model(v@)),
            Err(ParseError::Grammar { at, code, input }) => parse_spec(s@) == Err::<
                Seq<ItemModel>,
                Rejection,
            >(Rejection::Grammar(at as int, code)) && input@ == s@.skip(at as int),
            Err(ParseError::Trailing { at, rest }) => parse_spec(s@) == Err::<
                Seq<ItemModel>,
                Rejection,
            >(Rejection::Trailing(at as int)) && rest@ == s@.skip(at as int),
            Err(ParseError::Empty) => parse_spec(s@) == Err::<Seq<ItemModel>, Rejection>(
                Rejection::Empty,
            ),
        },
{
    let chars = chars_of(s);
    let n = chars.len();
    if skip_spaces(&chars, 0) >= n {
        return Err(ParseError::Empty);
    }
    match item_at_exec(&chars, 0) {
        Err((at, code)) => {
            let input = remainder(s, n, at);
            Err(ParseError::Grammar { at, code, input })
        },
        Ok((first, j)) => {
            let mut items: Vec<PatternItem> = Vec::new();
            items.push(first);
            proof {
                assert(items_model(items@) =~= seq![first@]);
            }
            let e = items_from_exec(&chars, j, &mut items);
            if e == n {
                Ok(items)
            } else {
                let rest = remainder(s, n, e);
                Err(ParseError::Trailing { at: e, rest })
            }
        },
    }
}

/// The text that `str`'s `Debug` formatting gives for `s`: quoted, with
/// special characters escaped.
pub uninterp spec fn debug_quoted(s: Seq<char>) -> Seq<char>;

/// Relies on `<str as core::fmt::Debug>::fmt`: the quoted and escaped form of
/// `s`, which depends on its characters alone.
#[verifier::external_body]
fn quoted(s: &str) -> (r: String)
    ensures
        r@ == debug_quoted(s@),
{
    format!("{:?}", s)
}

/// The name under which a failure code is shown.
pub open spec fn code_text(c: FailureCode) -> Seq<char> {
    match c {
        FailureCode::ExpectedChar => "Char"@,
        FailureCode::ExpectedDigit => "Digit"@,
        FailureCode::KeyOutOfRange => "MapRes"@,
    }
}

/// The message shown for `e`, raised while parsing `pattern`.
pub open spec fn message_text(e: ParseError, pattern: Seq<char>) -> Seq<char> {
    match e {
        ParseError::Grammar { code, input, .. } => "error parsing pattern `"@ + pattern
            + "`: Error(Error { input: "@ + debug_quoted(input@) + ", code: "@ + code_text(code)
            + " })"@,
        ParseError::Trailing { rest, .. } => "invalid pattern, unexpected `"@ + rest@ + "`"@,
        ParseError::Empty => "empty pattern"@,
    }
}

impl FailureCode {
    /// The name under which this code is shown.
    pub fn name(&self) -> (r: &'static str)
        ensures
            r@ == code_text(*self),
    {
        match self {
            FailureCode::ExpectedChar => "Char",
            FailureCode::ExpectedDigit => "Digit",
            FailureCode::KeyOutOfRange => "MapRes",
        }
    }
}

impl ParseError {
    /// A message for the user that names the offending part of `pattern`,
    /// the input that the error came from.
    pub fn message(&self, pattern: &str) -> (r: String)
        ensures
            r@ == message_text(*self, pattern@),
    {
        match self {
            ParseError::Grammar { code, input, .. } => {
                let mut m = String::from_str("error parsing pattern `");
                m.append(pattern);
                m.append("`: Error(Error { input: ");
                let q = quoted(input.as_str());
                m.append(q.as_str());
                m.append(", code: ");
                m.append(code.name());
                m.append(" })");
                m
            },
            ParseError::Trailing { rest, .. } => {
                let mut m = String::from_str("invalid pattern, unexpected `");
                m.append(rest.as_str());
                m.append("`");
                m
            },
            ParseError::Empty => String::from_str("empty pattern"),
        }
    }
}

} // verus!
